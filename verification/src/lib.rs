//! Linting for SUMO (support.mozilla.org) Knowledge Base wiki markup.
//!
//! I/O-free: the same code can back a command-line tool, a language server and
//! a browser build. The markup is Kitsune's own wiki dialect, **not** Markdown.
pub mod scan;
pub mod diagnostic;
pub mod lexer;
pub mod rules;
pub mod style;
pub mod lsp;
pub mod cli;
pub mod web;

pub use diagnostic::{line_col, Applicability, Diagnostic, Fix, LineCol, Severity};
pub use lexer::{lex, LinkKind, MacroKind, Opaque, Token, TokenKind};
pub use style::{HeadingSpacing, Style};

use vstd::prelude::*;
use vstd::utf8::*;
use vstd::string::*;
use crate::lexer::{lemma_lex_boundaries, lemma_lex_tiles, lemma_tiles_index, lex_spec, spans_ok, tiles, tiles_from};
use crate::scan::{append, lemma_boundary_ends, lemma_encode_injective, new_string, push_slice_raw, slice_ok, substr, utf8_of};
use crate::diagnostic::{DiagnosticView, FixView};
use crate::rules::{check, check_spec, reports_ok, report_ok, views};
use crate::style::format_spec;

verus! {

/// A parsed document: the source, plus tokens that tile it exactly.
#[derive(Debug)]
pub struct Document {
    source: String,
    tokens: Vec<Token>,
}

impl Document {
    #[verifier::type_invariant]
    spec fn inv(self) -> bool {
        &&& self.tokens@ == lex_spec(encode_utf8(self.source@))
        &&& encode_utf8(self.source@).len() <= usize::MAX
    }

    /// The document's text.
    pub closed spec fn text(&self) -> Seq<char> {
        self.source@
    }

    /// The UTF-8 bytes of the document's text.
    pub open spec fn bytes(&self) -> Seq<u8> {
        encode_utf8(self.text())
    }

    pub fn parse(source: &str) -> (d: Self)
        ensures
            d.text() == source@,
    {
        let tokens = lex(source);
        // Reading the byte length tells the proof that it fits in a `usize`.
        let _byte_len = source.as_bytes().len();
        let owned = source.to_owned();
        Document { source: owned, tokens }
    }

    pub fn source(&self) -> (r: &str)
        ensures
            r@ == self.text(),
    {
        self.source.as_str()
    }

    pub fn tokens(&self) -> (r: &[Token])
        ensures
            r@ == lex_spec(self.bytes()),
    {
        proof {
            use_type_invariant(self);
        }
        self.tokens.as_slice()
    }

    /// Reassemble the document from its tokens: identical to the source for
    /// every input.
    pub fn reprint(&self) -> (r: String)
        ensures
            r@ == self.text(),
    {
        proof {
            use_type_invariant(self);
        }
        let ghost b = encode_utf8(self.source@);
        let src = self.source.as_str();
        let ghost ts = self.tokens@;
        proof {
            assert(src.spec_bytes() == b);
            encode_utf8_valid_utf8(self.source@);
            lemma_lex_tiles(b);
            lemma_lex_boundaries(b);
            lemma_tiles_index(ts, 0, b.len() as int);
        }
        let mut s = new_string();
        let mut at: usize = 0;
        let mut k: usize = 0;
        while k < self.tokens.len()
            invariant
                ts == self.tokens@,
                src.spec_bytes() == b,
                tiles_from(ts, 0, b.len() as int),
                spans_ok(b, ts),
                k <= ts.len(),
                k == 0 ==> at == 0,
                k > 0 ==> at == ts[k - 1].span.end,
                ts.len() > 0 ==> ts[0].span.start == 0 && ts[ts.len() - 1].span.end == b.len(),
                forall|j: int| 0 <= j < ts.len() - 1 ==> #[trigger] ts[j].span.end == ts[j + 1].span.start,
                at <= b.len(),
                utf8_of(&s) == b.subrange(0, at as int),
            decreases self.tokens.len() - k,
        {
            let t = &self.tokens[k];
            proof {
                assert(slice_ok(b, ts[k as int].span.start as int, ts[k as int].span.end as int));
                if k > 0 {
                    assert(ts[k - 1].span.end == ts[k as int].span.start);
                }
            }
            let piece = t.text(src);
            append(&mut s, piece);
            proof {
                assert(b.subrange(0, at as int) + b.subrange(at as int, t.span.end as int) =~= b.subrange(0, t.span.end as int));
            }
            at = t.span.end;
            k += 1;
        }
        proof {
            if ts.len() == 0 {
                assert(at == b.len());
            }
            assert(b.subrange(0, b.len() as int) =~= b);
            lemma_encode_injective(s@, self.source@);
        }
        s
    }

    /// True if the token stream covers the source exactly, with no gaps: the
    /// lexer's losslessness makes this hold of every document.
    pub fn is_lossless(&self) -> (r: bool)
        ensures
            r,
    {
        proof {
            use_type_invariant(self);
            lemma_lex_tiles(encode_utf8(self.source@));
        }
        let n = self.source.as_str().len();
        tiles(self.tokens.as_slice(), n) && self.reprint() == self.source
    }
}

// ---------------------------------------------------------------------------
// Applying fixes
// ---------------------------------------------------------------------------

/// The fixes to apply, in diagnostic order: every `Safe` fix, and the
/// `Unsafe` ones too when `include_unsafe` is set.
pub open spec fn chosen_fixes(ds: Seq<DiagnosticView>, include_unsafe: bool) -> Seq<FixView>
    decreases ds.len(),
{
    if ds.len() == 0 {
        Seq::empty()
    } else {
        let rest = chosen_fixes(ds.drop_last(), include_unsafe);
        match ds.last().fix {
            Some(f) => if include_unsafe || f.applicability == Applicability::Safe {
                rest.push(f)
            } else {
                rest
            },
            None => rest,
        }
    }
}

pub open spec fn fix_le(x: FixView, y: FixView) -> bool {
    x.start < y.start || (x.start == y.start && x.end <= y.end)
}

pub open spec fn insert_fix(s: Seq<FixView>, x: FixView) -> Seq<FixView>
    decreases s.len(),
{
    if s.len() == 0 {
        seq![x]
    } else if fix_le(s.last(), x) {
        s.push(x)
    } else {
        insert_fix(s.drop_last(), x).push(s.last())
    }
}

/// Stable sort of fixes by span.
pub open spec fn sort_fixes(s: Seq<FixView>) -> Seq<FixView>
    decreases s.len(),
{
    if s.len() == 0 {
        Seq::empty()
    } else {
        insert_fix(sort_fixes(s.drop_last()), s.last())
    }
}

/// Rewrite `b` from `at` on with the sorted fixes from index `k` on. A fix
/// that starts before `at` overlaps one already applied and is dropped.
/// Returns the rewritten bytes and how many fixes were applied.
pub open spec fn splice(b: Seq<u8>, fs: Seq<FixView>, k: int, at: int) -> (Seq<u8>, nat)
    decreases fs.len() - k,
{
    if k >= fs.len() || k < 0 {
        (b.subrange(at, b.len() as int), 0)
    } else if fs[k].start < at {
        splice(b, fs, k + 1, at)
    } else {
        let r = splice(b, fs, k + 1, fs[k].end as int);
        (b.subrange(at, fs[k].start as int) + fs[k].replacement + r.0, r.1 + 1)
    }
}

/// What [`Document::apply_fixes`] produces for the diagnostics `ds` of `b`.
pub open spec fn apply_spec(b: Seq<u8>, ds: Seq<DiagnosticView>, include_unsafe: bool) -> (
    Seq<u8>,
    nat,
) {
    splice(b, sort_fixes(chosen_fixes(ds, include_unsafe)), 0, 0)
}

pub open spec fn all_fix_spans_ok(b: Seq<u8>, fs: Seq<FixView>) -> bool {
    forall|k: int| 0 <= k < fs.len() ==> #[trigger] slice_ok(b, fs[k].start as int, fs[k].end as int)
}

proof fn lemma_insert_fix_at(s: Seq<FixView>, x: FixView, p: int)
    requires
        0 <= p <= s.len(),
        p > 0 ==> fix_le(s[p - 1], x),
        forall|j: int| p <= j < s.len() ==> !fix_le(#[trigger] s[j], x),
    ensures
        insert_fix(s, x) == s.insert(p, x),
    decreases s.len(),
{
    if s.len() == 0 {
        assert(s.insert(p, x) =~= seq![x]);
    } else if p == s.len() {
        assert(s.insert(p, x) =~= s.push(x));
    } else {
        let t = s.drop_last();
        lemma_insert_fix_at(t, x, p);
        assert(s.insert(p, x) =~= t.insert(p, x).push(s.last()));
    }
}

/// The chosen fixes, stably sorted by span.
fn sorted_fixes(fixes: &Vec<Fix>) -> (r: Vec<Fix>)
    ensures
        fix_views(r@) == sort_fixes(fix_views(fixes@)),
        forall|b: Seq<u8>| all_fix_spans_ok(b, fix_views(fixes@)) ==> all_fix_spans_ok(b, fix_views(r@)),
{
    let ghost all = fix_views(fixes@);
    let mut res: Vec<Fix> = Vec::new();
    let mut k: usize = 0;
    proof {
        assert(fix_views(res@) =~= sort_fixes(all.subrange(0, 0)));
    }
    while k < fixes.len()
        invariant
            all == fix_views(fixes@),
            k <= fixes@.len(),
            fix_views(res@) == sort_fixes(all.subrange(0, k as int)),
            forall|b: Seq<u8>| all_fix_spans_ok(b, all) ==> all_fix_spans_ok(b, fix_views(res@)),
        decreases fixes.len() - k,
    {
        let f = fixes[k].clone();
        let mut p = res.len();
        while p > 0 && !(res[p - 1].span.start < f.span.start || (res[p - 1].span.start
            == f.span.start && res[p - 1].span.end <= f.span.end))
            invariant
                p <= res@.len(),
                forall|j: int| p <= j < res@.len() ==> !fix_le(#[trigger] fix_views(res@)[j], f@),
            decreases p,
        {
            p -= 1;
        }
        proof {
            let vs = fix_views(res@);
            if p > 0 {
                assert(vs[p - 1] == res@[p - 1]@);
            }
            lemma_insert_fix_at(vs, f@, p as int);
            assert(all.subrange(0, k + 1).drop_last() =~= all.subrange(0, k as int));
            assert(all.subrange(0, k + 1).last() == f@);
        }
        let ghost old_res = res@;
        res.insert(p, f);
        proof {
            assert(fix_views(res@) =~= fix_views(old_res).insert(p as int, fix_views(res@)[p as int]));
            assert forall|b: Seq<u8>| all_fix_spans_ok(b, all) implies all_fix_spans_ok(b, fix_views(res@)) by {
                assert(slice_ok(b, all[k as int].start as int, all[k as int].end as int));
                assert forall|j: int| 0 <= j < fix_views(res@).len() implies #[trigger] slice_ok(b, fix_views(res@)[j].start as int, fix_views(res@)[j].end as int) by {
                    if j < p {
                        assert(fix_views(res@)[j] == fix_views(old_res)[j]);
                    } else if j > p {
                        assert(fix_views(res@)[j] == fix_views(old_res)[j - 1]);
                    }
                }
            }
        }
        k += 1;
    }
    proof {
        assert(all.subrange(0, k as int) =~= all);
    }
    res
}

pub open spec fn fix_views(fs: Seq<Fix>) -> Seq<FixView> {
    fs.map_values(|f: Fix| f@)
}

impl Document {
    pub fn diagnostics(&self) -> (r: Vec<Diagnostic>)
        ensures
            views(r@) == check_spec(self.bytes(), lex_spec(self.bytes())),
            reports_ok(self.bytes(), views(r@)),
    {
        proof {
            use_type_invariant(self);
            encode_utf8_valid_utf8(self.source@);
            lemma_lex_tiles(encode_utf8(self.source@));
            lemma_lex_boundaries(encode_utf8(self.source@));
        }
        check(self.source.as_str(), self.tokens.as_slice())
    }

    /// Apply fixes and return the rewritten source, with the number of fixes
    /// applied.
    ///
    /// Only `Safe` fixes are applied unless `include_unsafe` is set.
    /// Overlapping fixes are dropped rather than merged: applying two edits to
    /// the same bytes would produce something neither rule intended. A
    /// dropped fix can come back on the next pass: in `x [**a**](http://y)`
    /// the link is rewritten first, and the bold inside its new label is
    /// fixed only when the result is fixed again.
    pub fn apply_fixes(&self, include_unsafe: bool) -> (r: (String, usize))
        ensures
            utf8_of(&r.0) == apply_spec(
                self.bytes(),
                check_spec(self.bytes(), lex_spec(self.bytes())),
                include_unsafe,
            ).0,
            r.1 == apply_spec(
                self.bytes(),
                check_spec(self.bytes(), lex_spec(self.bytes())),
                include_unsafe,
            ).1,
    {
        proof {
            use_type_invariant(self);
        }
        let ghost b = self.bytes();
        let ds = self.diagnostics();
        let ghost dv = views(ds@);
        let mut fixes: Vec<Fix> = Vec::new();
        let mut k: usize = 0;
        while k < ds.len()
            invariant
                dv == views(ds@),
                reports_ok(b, dv),
                k <= ds@.len(),
                fix_views(fixes@) == chosen_fixes(dv.subrange(0, k as int), include_unsafe),
                all_fix_spans_ok(b, fix_views(fixes@)),
            decreases ds.len() - k,
        {
            proof {
                assert(dv.subrange(0, k + 1).drop_last() =~= dv.subrange(0, k as int));
                assert(dv.subrange(0, k + 1).last() == ds@[k as int]@);
                assert(report_ok(b, dv[k as int]));
            }
            let ghost before = fixes@;
            if let Some(f) = &ds[k].fix {
                if include_unsafe || matches!(f.applicability, Applicability::Safe) {
                    fixes.push(f.clone());
                    proof {
                        assert(fix_views(fixes@) =~= fix_views(before).push(f@));
                    }
                }
            }
            k += 1;
        }
        proof {
            assert(dv.subrange(0, k as int) =~= dv);
        }
        let sorted = sorted_fixes(&fixes);
        let ghost fs = fix_views(sorted@);
        let src = self.source.as_str();
        let n = src.as_bytes().len();
        proof {
            encode_utf8_valid_utf8(self.source@);
            lemma_boundary_ends(b);
            assert(src.spec_bytes() == b);
        }
        let mut out = new_string();
        let mut at: usize = 0;
        let mut applied: usize = 0;
        let mut j: usize = 0;
        while j < sorted.len()
            invariant
                fs == fix_views(sorted@),
                src.spec_bytes() == b,
                n == b.len(),
                all_fix_spans_ok(b, fs),
                j <= fs.len(),
                applied <= j,
                at <= n,
                is_char_boundary(b, at as int),
                utf8_of(&out) + splice(b, fs, j as int, at as int).0 == splice(b, fs, 0, 0).0,
                applied + splice(b, fs, j as int, at as int).1 == splice(b, fs, 0, 0).1,
            decreases sorted.len() - j,
        {
            let f = &sorted[j];
            proof {
                assert(fs[j as int] == f@);
                assert(slice_ok(b, fs[j as int].start as int, fs[j as int].end as int));
            }
            if f.span.start >= at {
                let ghost o = utf8_of(&out);
                push_slice_raw(&mut out, src, at, f.span.start);
                append(&mut out, f.replacement.as_str());
                proof {
                    let r = splice(b, fs, j + 1, f.span.end as int);
                    assert(utf8_of(&out) == o + b.subrange(at as int, f.span.start as int) + encode_utf8(f.replacement@));
                    assert(utf8_of(&out) + r.0 =~= o + splice(b, fs, j as int, at as int).0);
                }
                at = f.span.end;
                applied += 1;
            }
            j += 1;
        }
        push_slice_raw(&mut out, src, at, n);
        (out, applied)
    }
}

impl Clone for Document {
    /// A copy of the document: the same text, lexed the same way.
    fn clone(&self) -> (r: Self)
        ensures
            r.text() == self.text(),
    {
        Document::parse(self.source.as_str())
    }
}

impl Document {
    /// Apply `style` to the document: see [`style::format`].
    pub fn format(&self, style: &Style) -> (r: String)
        ensures
            utf8_of(&r) == format_spec(self.bytes(), lex_spec(self.bytes()), *style),
    {
        proof {
            use_type_invariant(self);
            encode_utf8_valid_utf8(self.source@);
            lemma_lex_tiles(encode_utf8(self.source@));
            lemma_lex_boundaries(encode_utf8(self.source@));
        }
        style::format(self.source.as_str(), self.tokens.as_slice(), style)
    }
}

// ---------------------------------------------------------------------------
// Laws of fixing
// ---------------------------------------------------------------------------

proof fn lemma_insert_fix_len(s: Seq<FixView>, x: FixView)
    ensures
        insert_fix(s, x).len() == s.len() + 1,
    decreases s.len(),
{
    if s.len() > 0 && !fix_le(s.last(), x) {
        lemma_insert_fix_len(s.drop_last(), x);
    }
}

proof fn lemma_sort_fixes_len(s: Seq<FixView>)
    ensures
        sort_fixes(s).len() == s.len(),
    decreases s.len(),
{
    if s.len() > 0 {
        lemma_sort_fixes_len(s.drop_last());
        lemma_insert_fix_len(sort_fixes(s.drop_last()), s.last());
    }
}

proof fn lemma_splice_count(b: Seq<u8>, fs: Seq<FixView>, k: int, at: int)
    requires
        0 <= k <= fs.len(),
    ensures
        splice(b, fs, k, at).1 <= fs.len() - k,
    decreases fs.len() - k,
{
    if k < fs.len() {
        if fs[k].start < at {
            lemma_splice_count(b, fs, k + 1, at);
        } else {
            lemma_splice_count(b, fs, k + 1, fs[k].end as int);
        }
    }
}

/// Fixing applies at most one edit per chosen fix: overlapping fixes are
/// dropped, never merged.
pub proof fn lemma_applied_at_most_chosen(b: Seq<u8>, ds: Seq<DiagnosticView>, include_unsafe: bool)
    ensures
        apply_spec(b, ds, include_unsafe).1 <= chosen_fixes(ds, include_unsafe).len(),
{
    lemma_sort_fixes_len(chosen_fixes(ds, include_unsafe));
    lemma_splice_count(b, sort_fixes(chosen_fixes(ds, include_unsafe)), 0, 0);
}

/// With nothing to apply, fixing gives back the source unchanged and
/// reports no fix applied.
pub proof fn lemma_nothing_to_fix(b: Seq<u8>, ds: Seq<DiagnosticView>, include_unsafe: bool)
    requires
        chosen_fixes(ds, include_unsafe).len() == 0,
    ensures
        apply_spec(b, ds, include_unsafe) == (b, 0nat),
{
    lemma_sort_fixes_len(chosen_fixes(ds, include_unsafe));
    assert(b.subrange(0, b.len() as int) =~= b);
}

/// Without `include_unsafe`, only fixes marked `Safe` are chosen.
pub proof fn lemma_only_safe_fixes_by_default(ds: Seq<DiagnosticView>)
    ensures
        forall|k: int| 0 <= k < chosen_fixes(ds, false).len() ==> (#[trigger] chosen_fixes(ds, false)[k]).applicability == Applicability::Safe,
    decreases ds.len(),
{
    if ds.len() > 0 {
        lemma_only_safe_fixes_by_default(ds.drop_last());
        let rest = chosen_fixes(ds.drop_last(), false);
        assert forall|k: int| 0 <= k < chosen_fixes(ds, false).len() implies (#[trigger] chosen_fixes(ds, false)[k]).applicability == Applicability::Safe by {
            if k < rest.len() {
                assert(chosen_fixes(ds, false)[k] == rest[k]);
            }
        }
    }
}

/// Every document's tokens reassemble into its source exactly, so the text
/// that fixing or formatting produces, parsed again, is lossless too.
pub proof fn lemma_every_text_round_trips(b: Seq<u8>)
    requires
        valid_utf8(b),
        b.len() <= usize::MAX,
    ensures
        tiles_from(lex_spec(b), 0, b.len() as int),
        spans_ok(b, lex_spec(b)),
{
    lemma_lex_tiles(b);
    lemma_lex_boundaries(b);
}

} // verus!
