//! The JSON results of the browser build: one string in, one JSON string
//! out.
use vstd::prelude::*;
use vstd::utf8::*;
use vstd::string::*;
use crate::diagnostic::{line_col, line_col_spec, severity_str, Applicability, DiagnosticView};
use crate::lexer::lex_spec;
use crate::lsp::{join_commas, json_quote, json_str, lemma_join_push};
use crate::rules::{check_spec, dec, lit, push_decimal, report_ok, reports_ok, views};
use crate::scan::{append, bytes_eq, new_string, utf8_of};
use crate::style::{format_spec, HeadingSpacing, Style};
use crate::{apply_spec, Document};

verus! {

/// The `fix` member of a lint row.
pub open spec fn fix_member(d: DiagnosticView) -> Seq<u8> {
    match d.fix {
        Some(f) => lit("{\"safe\":") + if f.applicability == Applicability::Safe {
            lit("true")
        } else {
            lit("false")
        } + lit(",\"description\":") + json_quote(f.description) + lit("}"),
        None => lit("null"),
    }
}

/// One diagnostic of `b` as a lint row.
pub open spec fn lint_row_spec(b: Seq<u8>, d: DiagnosticView) -> Seq<u8> {
    let pos = line_col_spec(b, d.start as int);
    lit("{\"line\":") + dec(pos.0 as nat) + lit(",\"column\":") + dec(pos.1 as nat) + lit(",\"start\":") + dec(
        d.start as nat,
    ) + lit(",\"end\":") + dec(d.end as nat) + lit(",\"code\":\"") + lit(d.code) + lit("\",\"severity\":\"")
        + lit(severity_str(d.severity)) + lit("\",\"message\":") + json_quote(d.message) + lit(",\"fix\":")
        + fix_member(d) + lit("}")
}

/// The lint result for `b`: every diagnostic as a row, in a JSON array.
pub open spec fn lint_spec(b: Seq<u8>) -> Seq<u8> {
    let ds = check_spec(b, lex_spec(b));
    lit("[") + join_commas(ds.map_values(|d: DiagnosticView| lint_row_spec(b, d))) + lit("]")
}

/// Lint `src`: a JSON array of its diagnostics, each with its 1-based line
/// and column, its byte span, and its fix if any.
pub fn lint_json(src: &str) -> (r: String)
    requires
        src.spec_bytes().len() < usize::MAX,
    ensures
        utf8_of(&r) == lint_spec(src.spec_bytes()),
{
    let ghost b = src.spec_bytes();
    let doc = Document::parse(src);
    let diagnostics = doc.diagnostics();
    let ghost ds = views(diagnostics@);
    let ghost items = ds.map_values(|d: DiagnosticView| lint_row_spec(b, d));
    proof {
        assert(doc.bytes() == b);
    }
    let mut out = new_string();
    append(&mut out, "[");
    let ghost head = utf8_of(&out);
    let mut k: usize = 0;
    while k < diagnostics.len()
        invariant
            b == src.spec_bytes(),
            b.len() < usize::MAX,
            ds == views(diagnostics@),
            items == ds.map_values(|d: DiagnosticView| lint_row_spec(b, d)),
            reports_ok(b, ds),
            k <= ds.len(),
            utf8_of(&out) == head + join_commas(items.subrange(0, k as int)),
        decreases diagnostics.len() - k,
    {
        let d = &diagnostics[k];
        proof {
            assert(report_ok(b, ds[k as int]));
            assert(ds[k as int] == d@);
        }
        let pos = line_col(src, d.span.start);
        let mut row = new_string();
        append(&mut row, "{\"line\":");
        push_decimal(&mut row, pos.line);
        append(&mut row, ",\"column\":");
        push_decimal(&mut row, pos.col);
        append(&mut row, ",\"start\":");
        push_decimal(&mut row, d.span.start);
        append(&mut row, ",\"end\":");
        push_decimal(&mut row, d.span.end);
        append(&mut row, ",\"code\":\"");
        append(&mut row, d.code);
        append(&mut row, "\",\"severity\":\"");
        append(&mut row, d.severity.as_str());
        append(&mut row, "\",\"message\":");
        let m = json_str(d.message.as_str());
        append(&mut row, m.as_str());
        append(&mut row, ",\"fix\":");
        let ghost before_fix = utf8_of(&row);
        match &d.fix {
            Some(f) => {
                append(&mut row, "{\"safe\":");
                if matches!(f.applicability, Applicability::Safe) {
                    append(&mut row, "true");
                } else {
                    append(&mut row, "false");
                }
                append(&mut row, ",\"description\":");
                let j = json_str(f.description.as_str());
                append(&mut row, j.as_str());
                append(&mut row, "}");
            },
            None => {
                append(&mut row, "null");
            },
        }
        proof {
            assert(utf8_of(&row) =~= before_fix + fix_member(d@));
        }
        append(&mut row, "}");
        proof {
            assert(utf8_of(&row) =~= lint_row_spec(b, d@));
        }
        if k > 0 {
            append(&mut out, ",");
        }
        append(&mut out, row.as_str());
        proof {
            let xs = items.subrange(0, k as int);
            assert(items.subrange(0, k + 1) =~= xs.push(utf8_of(&row)));
            lemma_join_push(xs, utf8_of(&row));
            assert(utf8_of(&out) =~= head + join_commas(items.subrange(0, k + 1)));
        }
        k += 1;
    }
    append(&mut out, "]");
    proof {
        assert(items.subrange(0, k as int) =~= items);
    }
    out
}

/// The fix result for `b`: the fixed text and how many fixes were applied.
pub open spec fn fix_result_spec(b: Seq<u8>, unsafe_fixes: bool) -> Seq<u8> {
    let r = apply_spec(b, check_spec(b, lex_spec(b)), unsafe_fixes);
    lit("{\"text\":") + json_quote(r.0) + lit(",\"applied\":") + dec(r.1) + lit("}")
}

/// Apply fixes to `src`, returning `{"text":…,"applied":N}`.
pub fn fix_json(src: &str, unsafe_fixes: bool) -> (r: String)
    ensures
        utf8_of(&r) == fix_result_spec(src.spec_bytes(), unsafe_fixes),
{
    let doc = Document::parse(src);
    proof {
        assert(doc.bytes() == src.spec_bytes());
    }
    let (out, n) = doc.apply_fixes(unsafe_fixes);
    let mut o = new_string();
    append(&mut o, "{\"text\":");
    let t = json_str(out.as_str());
    append(&mut o, t.as_str());
    append(&mut o, ",\"applied\":");
    push_decimal(&mut o, n);
    append(&mut o, "}");
    proof {
        assert(utf8_of(&o) =~= fix_result_spec(src.spec_bytes(), unsafe_fixes));
    }
    o
}

/// The heading style chosen by number: 1 spaced, 2 tight, anything else the
/// per-article default.
pub open spec fn spacing_of(n: u32) -> HeadingSpacing {
    if n == 1 {
        HeadingSpacing::Spaced
    } else if n == 2 {
        HeadingSpacing::Tight
    } else {
        HeadingSpacing::PreserveDominant
    }
}

/// The style result for `b`: the formatted text and whether it changed.
pub open spec fn style_result_spec(b: Seq<u8>, heading_spacing: u32) -> Seq<u8> {
    let out = format_spec(
        b,
        lex_spec(b),
        Style { heading_spacing: spacing_of(heading_spacing), trailing_whitespace: false },
    );
    lit("{\"text\":") + json_quote(out) + lit(",\"changed\":") + if out != b {
        lit("true")
    } else {
        lit("false")
    } + lit("}")
}

/// Apply house style to `src`, returning `{"text":…,"changed":bool}`.
pub fn style_json(src: &str, heading_spacing: u32) -> (r: String)
    ensures
        utf8_of(&r) == style_result_spec(src.spec_bytes(), heading_spacing),
{
    let base = Style::thunderbird();
    let style = Style {
        heading_spacing: if heading_spacing == 1 {
            HeadingSpacing::Spaced
        } else if heading_spacing == 2 {
            HeadingSpacing::Tight
        } else {
            HeadingSpacing::PreserveDominant
        },
        trailing_whitespace: base.trailing_whitespace,
    };
    let doc = Document::parse(src);
    proof {
        assert(doc.bytes() == src.spec_bytes());
    }
    let out = doc.format(&style);
    let changed = !bytes_eq(out.as_str().as_bytes(), src.as_bytes());
    let mut o = new_string();
    append(&mut o, "{\"text\":");
    let t = json_str(out.as_str());
    append(&mut o, t.as_str());
    append(&mut o, ",\"changed\":");
    if changed {
        append(&mut o, "true");
    } else {
        append(&mut o, "false");
    }
    append(&mut o, "}");
    proof {
        assert(utf8_of(&o) =~= style_result_spec(src.spec_bytes(), heading_spacing));
    }
    o
}

} // verus!
