//! The computations behind the command-line tool: its summary and report
//! lines, and the line diff it shows for `--diff`.
use vstd::prelude::*;
use vstd::utf8::*;
use vstd::string::*;
use crate::diagnostic::{severity_str, Applicability, Diagnostic, DiagnosticView, FixView, LineCol, Severity};
use crate::lsp::{join_commas, json_quote, json_str, lemma_join_push};
use crate::rules::{dec, lit, push_decimal};
use crate::lexer::lex_spec;
use crate::rules::check_spec;
use crate::style::{format_spec, Style};
use crate::{apply_spec, Document};
use crate::scan::{
    append, find_byte, first_byte, lemma_boundary_after_ascii, lemma_boundary_ascii, lemma_boundary_ends,
    lemma_first_byte, new_string, push_slice_raw, slice_ok, utf8_of,
};

verus! {

/// `""` for one, `"s"` for any other count.
pub fn plural(n: usize) -> (r: &'static str)
    ensures
        r == if n == 1 {
            ""
        } else {
            "s"
        },
{
    if n == 1 {
        ""
    } else {
        "s"
    }
}

// ---------------------------------------------------------------------------
// Line diff
// ---------------------------------------------------------------------------

/// The lines of `b` from `p` on, as byte ranges, split the way `str::lines`
/// splits: at `\n`, dropping a `\r` right before it. A last line without `\n`
/// is kept as it is; nothing follows a final `\n`.
pub open spec fn lines_from(b: Seq<u8>, p: int) -> Seq<(int, int)>
    decreases b.len() - p,
{
    if p < 0 || p >= b.len() {
        Seq::empty()
    } else {
        match first_byte(b, 10, p, b.len() as int) {
            Some(q) => {
                let e = if q > p && b[q - 1] == 13 {
                    q - 1
                } else {
                    q
                };
                if p <= q < b.len() {
                    seq![(p, e)] + lines_from(b, q + 1)
                } else {
                    seq![(p, e)]
                }
            },
            None => seq![(p, b.len() as int)],
        }
    }
}

pub open spec fn line_text(b: Seq<u8>, r: (int, int)) -> Seq<u8> {
    b.subrange(r.0, r.1)
}

/// What `--diff` prints, from line `k` on: lines are paired by position; a
/// pair that differs shows as `-old` then `+new`, and lines past the end of
/// the other text as `-old` or `+new` alone.
pub open spec fn diff_from(a: Seq<u8>, la: Seq<(int, int)>, b: Seq<u8>, lb: Seq<(int, int)>, k: int) -> Seq<Seq<u8>>
    decreases la.len() + lb.len() - k,
{
    if k < 0 || (k >= la.len() && k >= lb.len()) {
        Seq::empty()
    } else {
        let here = if k < la.len() && k < lb.len() {
            let x = line_text(a, la[k]);
            let y = line_text(b, lb[k]);
            if x == y {
                Seq::empty()
            } else {
                seq![lit("-") + x, lit("+") + y]
            }
        } else if k < la.len() {
            seq![lit("-") + line_text(a, la[k])]
        } else {
            seq![lit("+") + line_text(b, lb[k])]
        };
        here + diff_from(a, la, b, lb, k + 1)
    }
}

pub open spec fn diff_spec(before: Seq<u8>, after: Seq<u8>) -> Seq<Seq<u8>> {
    diff_from(before, lines_from(before, 0), after, lines_from(after, 0), 0)
}

pub open spec fn strings_view(v: Seq<String>) -> Seq<Seq<u8>> {
    v.map_values(|s: String| utf8_of(&s))
}

/// Every line range of `b` lies on character boundaries.
pub open spec fn lines_ok(b: Seq<u8>, ls: Seq<(usize, usize)>) -> bool {
    forall|k: int| 0 <= k < ls.len() ==> #[trigger] slice_ok(b, ls[k].0 as int, ls[k].1 as int)
}

pub open spec fn ranges_view(ls: Seq<(usize, usize)>) -> Seq<(int, int)> {
    ls.map_values(|r: (usize, usize)| (r.0 as int, r.1 as int))
}

/// The lines of `s`, as byte ranges.
fn line_ranges(s: &str) -> (r: Vec<(usize, usize)>)
    ensures
        ranges_view(r@) == lines_from(s.spec_bytes(), 0),
        lines_ok(s.spec_bytes(), r@),
{
    let ghost b = s.spec_bytes();
    let bytes = s.as_bytes();
    let n = bytes.len();
    proof {
        encode_utf8_valid_utf8(s@);
        lemma_boundary_ends(b);
    }
    let mut out: Vec<(usize, usize)> = Vec::new();
    let mut p: usize = 0;
    while p < n
        invariant
            b == s.spec_bytes(),
            bytes@ == b,
            n == b.len(),
            valid_utf8(b),
            is_char_boundary(b, n as int),
            p <= n,
            is_char_boundary(b, p as int),
            ranges_view(out@) + lines_from(b, p as int) == lines_from(b, 0),
            lines_ok(b, out@),
        decreases n - p,
    {
        proof {
            lemma_first_byte(b, 10, p as int, n as int);
        }
        let ghost before = out@;
        match find_byte(bytes, 10, p, n) {
            Some(q) => {
                let e = if q > p && bytes[q - 1] == 13 {
                    q - 1
                } else {
                    q
                };
                proof {
                    lemma_boundary_ascii(b, e as int);
                    lemma_boundary_after_ascii(b, q + 1);
                }
                out.push((p, e));
                proof {
                    assert(ranges_view(out@) =~= ranges_view(before).push((p as int, e as int)));
                    assert(ranges_view(out@) + lines_from(b, q + 1) =~= ranges_view(before) + lines_from(b, p as int));
                    assert forall|k: int| 0 <= k < out@.len() implies #[trigger] slice_ok(b, out@[k].0 as int, out@[k].1 as int) by {
                        if k < before.len() {
                            assert(out@[k] == before[k]);
                        }
                    }
                }
                p = q + 1;
            },
            None => {
                out.push((p, n));
                proof {
                    assert(ranges_view(out@) =~= ranges_view(before).push((p as int, n as int)));
                    assert(ranges_view(out@) + lines_from(b, n as int) =~= ranges_view(before) + lines_from(b, p as int));
                    assert forall|k: int| 0 <= k < out@.len() implies #[trigger] slice_ok(b, out@[k].0 as int, out@[k].1 as int) by {
                        if k < before.len() {
                            assert(out@[k] == before[k]);
                        }
                    }
                }
                p = n;
            },
        }
    }
    proof {
        assert(ranges_view(out@) + lines_from(b, p as int) =~= ranges_view(out@));
    }
    out
}

/// Whether `x[xa..xe]` equals `y[ya..ye]`.
fn ranges_equal(x: &[u8], xa: usize, xe: usize, y: &[u8], ya: usize, ye: usize) -> (r: bool)
    requires
        xa <= xe <= x.len(),
        ya <= ye <= y.len(),
    ensures
        r == (x@.subrange(xa as int, xe as int) == y@.subrange(ya as int, ye as int)),
{
    if xe - xa != ye - ya {
        proof {
            assert(x@.subrange(xa as int, xe as int).len() != y@.subrange(ya as int, ye as int).len());
        }
        return false;
    }
    let n = xe - xa;
    let mut k: usize = 0;
    while k < n
        invariant
            n == xe - xa == ye - ya,
            xa <= xe <= x.len(),
            ya <= ye <= y.len(),
            k <= n,
            x@.subrange(xa as int, xa + k) == y@.subrange(ya as int, ya + k),
        decreases n - k,
    {
        if x[xa + k] != y[ya + k] {
            proof {
                assert(x@.subrange(xa as int, xe as int)[k as int] == x@[xa + k]);
                assert(y@.subrange(ya as int, ye as int)[k as int] == y@[ya + k]);
            }
            return false;
        }
        proof {
            assert(x@.subrange(xa as int, xa + k + 1) =~= x@.subrange(xa as int, xa + k).push(x@[xa + k]));
            assert(y@.subrange(ya as int, ya + k + 1) =~= y@.subrange(ya as int, ya + k).push(y@[ya + k]));
        }
        k += 1;
    }
    true
}

/// A line of `s` with a one-byte ASCII prefix.
fn marked_line(mark: &str, s: &str, a: usize, e: usize) -> (r: String)
    requires
        slice_ok(s.spec_bytes(), a as int, e as int),
    ensures
        utf8_of(&r) == mark.spec_bytes() + s.spec_bytes().subrange(a as int, e as int),
{
    let mut o = new_string();
    append(&mut o, mark);
    push_slice_raw(&mut o, s, a, e);
    proof {
        assert(Seq::<u8>::empty() + mark.spec_bytes() =~= mark.spec_bytes());
    }
    o
}

/// The lines `--diff` prints for a change from `before` to `after`: a
/// minimal line diff, enough to review a fix, not a general-purpose differ.
pub fn diff_lines(before: &str, after: &str) -> (r: Vec<String>)
    ensures
        strings_view(r@) == diff_spec(before.spec_bytes(), after.spec_bytes()),
{
    let ghost a = before.spec_bytes();
    let ghost b = after.spec_bytes();
    let la = line_ranges(before);
    let lb = line_ranges(after);
    let ghost va = ranges_view(la@);
    let ghost vb = ranges_view(lb@);
    let mut out: Vec<String> = Vec::new();
    let mut k: usize = 0;
    while k < la.len() || k < lb.len()
        invariant
            a == before.spec_bytes(),
            b == after.spec_bytes(),
            va == ranges_view(la@),
            vb == ranges_view(lb@),
            va == lines_from(a, 0),
            vb == lines_from(b, 0),
            lines_ok(a, la@),
            lines_ok(b, lb@),
            k <= la@.len() || k <= lb@.len(),
            strings_view(out@) + diff_from(a, va, b, vb, k as int) == diff_from(a, va, b, vb, 0),
        decreases la@.len() + lb@.len() - k,
    {
        let ghost before_out = out@;
        if k < la.len() && k < lb.len() {
            let (xa, xe) = la[k];
            let (ya, ye) = lb[k];
            proof {
                assert(slice_ok(a, la@[k as int].0 as int, la@[k as int].1 as int));
                assert(slice_ok(b, lb@[k as int].0 as int, lb@[k as int].1 as int));
                assert(va[k as int] == (xa as int, xe as int));
                assert(vb[k as int] == (ya as int, ye as int));
            }
            if !ranges_equal(before.as_bytes(), xa, xe, after.as_bytes(), ya, ye) {
                let m = marked_line("-", before, xa, xe);
                let p = marked_line("+", after, ya, ye);
                out.push(m);
                out.push(p);
                proof {
                    assert(lit("-") == "-".spec_bytes());
                    assert(strings_view(out@) =~= strings_view(before_out).push(utf8_of(&m)).push(utf8_of(&p)));
                }
            }
        } else if k < la.len() {
            let (xa, xe) = la[k];
            proof {
                assert(slice_ok(a, la@[k as int].0 as int, la@[k as int].1 as int));
                assert(va[k as int] == (xa as int, xe as int));
            }
            let m = marked_line("-", before, xa, xe);
            out.push(m);
            proof {
                assert(strings_view(out@) =~= strings_view(before_out).push(utf8_of(&m)));
            }
        } else {
            let (ya, ye) = lb[k];
            proof {
                assert(slice_ok(b, lb@[k as int].0 as int, lb@[k as int].1 as int));
                assert(vb[k as int] == (ya as int, ye as int));
            }
            let p = marked_line("+", after, ya, ye);
            out.push(p);
            proof {
                assert(strings_view(out@) =~= strings_view(before_out).push(utf8_of(&p)));
            }
        }
        proof {
            assert(strings_view(out@) + diff_from(a, va, b, vb, k + 1) =~= strings_view(before_out) + diff_from(
                a,
                va,
                b,
                vb,
                k as int,
            ));
        }
        k += 1;
    }
    proof {
        assert(strings_view(out@) + diff_from(a, va, b, vb, k as int) =~= strings_view(out@));
    }
    out
}

// ---------------------------------------------------------------------------
// Report lines
// ---------------------------------------------------------------------------

pub open spec fn plural_spec(n: nat) -> Seq<u8> {
    if n == 1 {
        lit("")
    } else {
        lit("s")
    }
}

/// The closing summary: files checked, errors and warnings found, and files
/// fixed when there were any.
pub open spec fn summary_spec(files: nat, errors: nat, warnings: nat, fixed: nat) -> Seq<u8> {
    lit("checked ") + dec(files) + lit(" file") + plural_spec(files) + lit(": ") + dec(errors) + lit(" error")
        + plural_spec(errors) + lit(", ") + dec(warnings) + lit(" warning") + plural_spec(warnings) + if fixed
        > 0 {
        lit(", ") + dec(fixed) + lit(" file") + plural_spec(fixed) + lit(" fixed")
    } else {
        Seq::empty()
    }
}

fn push_plural(out: &mut String, n: usize)
    ensures
        utf8_of(final(out)) == utf8_of(old(out)) + plural_spec(n as nat),
{
    append(out, plural(n));
}

/// The summary line printed after a run.
pub fn summary_line(files: usize, errors: usize, warnings: usize, fixed: usize) -> (r: String)
    ensures
        utf8_of(&r) == summary_spec(files as nat, errors as nat, warnings as nat, fixed as nat),
{
    let mut o = new_string();
    append(&mut o, "checked ");
    push_decimal(&mut o, files);
    append(&mut o, " file");
    push_plural(&mut o, files);
    append(&mut o, ": ");
    push_decimal(&mut o, errors);
    append(&mut o, " error");
    push_plural(&mut o, errors);
    append(&mut o, ", ");
    push_decimal(&mut o, warnings);
    append(&mut o, " warning");
    push_plural(&mut o, warnings);
    let ghost mid = utf8_of(&o);
    if fixed > 0 {
        append(&mut o, ", ");
        push_decimal(&mut o, fixed);
        append(&mut o, " file");
        push_plural(&mut o, fixed);
        append(&mut o, " fixed");
    }
    proof {
        assert(utf8_of(&o) =~= summary_spec(files as nat, errors as nat, warnings as nat, fixed as nat));
    }
    o
}

/// What a rewrite of one file reports: how many fixes, and whether style
/// changes were made.
pub open spec fn applied_spec(name: Seq<u8>, n: nat, style: bool) -> Seq<u8> {
    lit("") + name + lit(": applied ") + if style && n > 0 {
        dec(n) + lit(" fix") + plural_spec(n) + lit(" and style changes")
    } else if style {
        lit("style changes")
    } else {
        dec(n) + lit(" fix") + plural_spec(n)
    }
}

/// The line reporting that file `name` was rewritten.
pub fn applied_line(name: &str, n: usize, style: bool) -> (r: String)
    ensures
        utf8_of(&r) == applied_spec(name.spec_bytes(), n as nat, style),
{
    let mut o = new_string();
    append(&mut o, "");
    append(&mut o, name);
    append(&mut o, ": applied ");
    if style && n > 0 {
        push_decimal(&mut o, n);
        append(&mut o, " fix");
        push_plural(&mut o, n);
        append(&mut o, " and style changes");
    } else if style {
        append(&mut o, "style changes");
    } else {
        push_decimal(&mut o, n);
        append(&mut o, " fix");
        push_plural(&mut o, n);
    }
    proof {
        assert(utf8_of(&o) =~= applied_spec(name.spec_bytes(), n as nat, style));
    }
    o
}

pub open spec fn fixable(d: DiagnosticView) -> bool {
    match d.fix {
        Some(f) => f.applicability == Applicability::Safe,
        None => false,
    }
}

/// One diagnostic of file `name` at position `pos`, as a JSON object.
pub open spec fn json_row_spec(name: Seq<u8>, line: nat, col: nat, d: DiagnosticView) -> Seq<u8> {
    lit("{\"file\":") + json_quote(name) + lit(",\"line\":") + dec(line) + lit(",\"column\":") + dec(col)
        + lit(",\"code\":\"") + lit(d.code) + lit("\",\"severity\":\"") + lit(severity_str(d.severity)) + lit(
        "\",\"message\":",
    ) + json_quote(d.message) + lit(",\"fixable\":") + if fixable(d) {
        lit("true")
    } else {
        lit("false")
    } + lit("}")
}

/// One diagnostic as a row of `--format json` output.
pub fn json_row(name: &str, pos: LineCol, d: &Diagnostic) -> (r: String)
    ensures
        utf8_of(&r) == json_row_spec(name.spec_bytes(), pos.line as nat, pos.col as nat, d@),
{
    let fix = match &d.fix {
        Some(f) => matches!(f.applicability, Applicability::Safe),
        None => false,
    };
    let mut o = new_string();
    append(&mut o, "{\"file\":");
    let n = json_str(name);
    append(&mut o, n.as_str());
    append(&mut o, ",\"line\":");
    push_decimal(&mut o, pos.line);
    append(&mut o, ",\"column\":");
    push_decimal(&mut o, pos.col);
    append(&mut o, ",\"code\":\"");
    append(&mut o, d.code);
    append(&mut o, "\",\"severity\":\"");
    append(&mut o, d.severity.as_str());
    append(&mut o, "\",\"message\":");
    let m = json_str(d.message.as_str());
    append(&mut o, m.as_str());
    append(&mut o, ",\"fixable\":");
    if fix {
        append(&mut o, "true");
    } else {
        append(&mut o, "false");
    }
    append(&mut o, "}");
    proof {
        assert(utf8_of(&o) =~= json_row_spec(name.spec_bytes(), pos.line as nat, pos.col as nat, d@));
    }
    o
}

/// The text report of one diagnostic of file `name` at `pos`.
pub open spec fn text_row_spec(name: Seq<u8>, line: nat, col: nat, d: DiagnosticView) -> Seq<u8> {
    lit("") + name + lit(":") + dec(line) + lit(":") + dec(col) + lit(": ") + lit(severity_str(d.severity)) + lit(
        " [",
    ) + lit(d.code) + lit("] ") + d.message
}

/// The line under it naming the fix, when there is one.
pub open spec fn fix_row_spec(f: FixView) -> Seq<u8> {
    lit("    ") + if f.applicability == Applicability::Safe {
        lit("fix")
    } else {
        lit("fix (unsafe)")
    } + lit(": ") + f.description
}

/// The text report of one diagnostic: its line, then its fix if it has one.
pub fn text_rows(name: &str, pos: LineCol, d: &Diagnostic) -> (r: Vec<String>)
    ensures
        strings_view(r@) == match d@.fix {
            Some(f) => seq![text_row_spec(name.spec_bytes(), pos.line as nat, pos.col as nat, d@), fix_row_spec(f)],
            None => seq![text_row_spec(name.spec_bytes(), pos.line as nat, pos.col as nat, d@)],
        },
{
    let mut o = new_string();
    append(&mut o, "");
    append(&mut o, name);
    append(&mut o, ":");
    push_decimal(&mut o, pos.line);
    append(&mut o, ":");
    push_decimal(&mut o, pos.col);
    append(&mut o, ": ");
    append(&mut o, d.severity.as_str());
    append(&mut o, " [");
    append(&mut o, d.code);
    append(&mut o, "] ");
    append(&mut o, d.message.as_str());
    proof {
        assert(utf8_of(&o) =~= text_row_spec(name.spec_bytes(), pos.line as nat, pos.col as nat, d@));
    }
    let mut rows: Vec<String> = Vec::new();
    rows.push(o);
    if let Some(f) = &d.fix {
        let mut t = new_string();
        append(&mut t, "    ");
        match f.applicability {
            Applicability::Safe => append(&mut t, "fix"),
            Applicability::Unsafe => append(&mut t, "fix (unsafe)"),
        }
        append(&mut t, ": ");
        append(&mut t, f.description.as_str());
        proof {
            assert(utf8_of(&t) =~= fix_row_spec(f@));
        }
        rows.push(t);
        proof {
            assert(strings_view(rows@) =~= seq![text_row_spec(name.spec_bytes(), pos.line as nat, pos.col as nat, d@), fix_row_spec(f@)]);
        }
    } else {
        proof {
            assert(strings_view(rows@) =~= seq![text_row_spec(name.spec_bytes(), pos.line as nat, pos.col as nat, d@)]);
        }
    }
    rows
}

/// The rows as a JSON array.
pub fn json_array(rows: &Vec<String>) -> (r: String)
    ensures
        utf8_of(&r) == lit("[") + join_commas(strings_view(rows@)) + lit("]"),
{
    let ghost xs = strings_view(rows@);
    let mut o = new_string();
    append(&mut o, "[");
    let ghost head = utf8_of(&o);
    let mut k: usize = 0;
    while k < rows.len()
        invariant
            xs == strings_view(rows@),
            k <= rows@.len(),
            utf8_of(&o) == head + join_commas(xs.subrange(0, k as int)),
        decreases rows.len() - k,
    {
        if k > 0 {
            append(&mut o, ",");
        }
        append(&mut o, rows[k].as_str());
        proof {
            let ys = xs.subrange(0, k as int);
            assert(xs.subrange(0, k + 1) =~= ys.push(xs[k as int]));
            lemma_join_push(ys, xs[k as int]);
            assert(utf8_of(&o) =~= head + join_commas(xs.subrange(0, k + 1)));
        }
        k += 1;
    }
    append(&mut o, "]");
    proof {
        assert(xs.subrange(0, k as int) =~= xs);
    }
    o
}


// ---------------------------------------------------------------------------
// One file's run
// ---------------------------------------------------------------------------

/// The text a run leaves of `b`, with the number of fixes applied: fixes
/// first when `fix` is set (unsafe ones too with `unsafe_fixes`), then the
/// house style, when one is given, over the fixed text.
pub open spec fn rewrite_spec(b: Seq<u8>, fix: bool, unsafe_fixes: bool, style: Option<Style>) -> (Seq<u8>, nat) {
    let fixed = if fix {
        apply_spec(b, check_spec(b, lex_spec(b)), unsafe_fixes)
    } else {
        (b, 0nat)
    };
    match style {
        Some(st) => (format_spec(fixed.0, lex_spec(fixed.0), st), fixed.1),
        None => fixed,
    }
}

/// Fix and/or format one file's text, going through a single write path so
/// that a file is rewritten at most once.
pub fn rewrite(src: &str, fix: bool, unsafe_fixes: bool, style: Option<Style>) -> (r: (String, usize))
    ensures
        utf8_of(&r.0) == rewrite_spec(src.spec_bytes(), fix, unsafe_fixes, style).0,
        r.1 == rewrite_spec(src.spec_bytes(), fix, unsafe_fixes, style).1,
{
    let (out, n) = if fix {
        let doc = Document::parse(src);
        proof {
            assert(doc.bytes() == src.spec_bytes());
        }
        doc.apply_fixes(unsafe_fixes)
    } else {
        let mut o = new_string();
        append(&mut o, src);
        (o, 0)
    };
    match style {
        Some(st) => {
            let doc = Document::parse(out.as_str());
            proof {
                assert(doc.bytes() == utf8_of(&out));
            }
            (doc.format(&st), n)
        },
        None => (out, n),
    }
}

/// The number of diagnostics among `ds` with severity `s`.
pub open spec fn count_severity(ds: Seq<DiagnosticView>, s: Severity) -> nat
    decreases ds.len(),
{
    if ds.len() == 0 {
        0
    } else {
        count_severity(ds.drop_last(), s) + if ds.last().severity == s {
            1nat
        } else {
            0nat
        }
    }
}

/// How many errors and how many warnings `ds` holds.
pub fn tally(ds: &Vec<Diagnostic>) -> (r: (usize, usize))
    ensures
        r.0 == count_severity(ds@.map_values(|d: Diagnostic| d@), Severity::Error),
        r.1 == count_severity(ds@.map_values(|d: Diagnostic| d@), Severity::Warning),
{
    let ghost vs = ds@.map_values(|d: Diagnostic| d@);
    let mut errors: usize = 0;
    let mut warnings: usize = 0;
    let mut k: usize = 0;
    while k < ds.len()
        invariant
            k <= ds.len(),
            vs == ds@.map_values(|d: Diagnostic| d@),
            errors + warnings <= k,
            errors == count_severity(vs.subrange(0, k as int), Severity::Error),
            warnings == count_severity(vs.subrange(0, k as int), Severity::Warning),
        decreases ds.len() - k,
    {
        proof {
            assert(vs.subrange(0, k + 1).drop_last() =~= vs.subrange(0, k as int));
            assert(vs[k as int] == ds@[k as int]@);
        }
        match ds[k].severity {
            Severity::Error => errors += 1,
            Severity::Warning => warnings += 1,
        }
        k += 1;
    }
    proof {
        assert(vs.subrange(0, k as int) =~= vs);
    }
    (errors, warnings)
}

/// The process exit code: 1 when any error-level diagnostic was found, else
/// 0. Warnings do not count.
pub fn exit_code(errors: usize) -> (r: u8)
    ensures
        r == if errors > 0 {
            1u8
        } else {
            0u8
        },
{
    if errors > 0 {
        1
    } else {
        0
    }
}

} // verus!
