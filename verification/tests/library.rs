use lib::cli::{
    applied_line, diff_lines, exit_code, json_array, json_row, plural, rewrite, summary_line, tally,
    text_rows,
};
use lib::lsp::{
    code_actions, extract_text, field_raw, field_str, frame_message, from_position, handle_message,
    json_str, next_uint, notify, parse_range, publish, read_message, respond, to_position, unescape,
    whole_document_edit, Docs,
};
use lib::rules::{check, opaque_name, rules};
use lib::web::{fix_json, lint_json, style_json};
use lib::{
    lex, line_col, Applicability, Diagnostic, Document, Fix, HeadingSpacing, Opaque, Severity, Style,
    TokenKind,
};

fn style(h: HeadingSpacing, strip: bool) -> Style {
    Style { heading_spacing: h, trailing_whitespace: strip }
}

// ---------------------------------------------------------------------------
// Formatting
// ---------------------------------------------------------------------------

#[test]
fn a_consistent_article_is_left_untouched() {
    let spaced = "= A =\n== B ==\ntext\n";
    let tight = "=A=\n==B==\ntext\n";
    let d = Style::default();
    assert_eq!(Document::parse(spaced).format(&d), spaced);
    assert_eq!(Document::parse(tight).format(&d), tight);
    assert_eq!(Document::parse(spaced).format(&style(HeadingSpacing::Spaced, false)), spaced);
    assert_eq!(Document::parse(tight).format(&style(HeadingSpacing::Tight, false)), tight);
}

#[test]
fn the_majority_style_wins_and_a_tie_changes_nothing() {
    let mixed = "= A =\n= B =\n=C=\n";
    assert_eq!(Document::parse(mixed).format(&Style::thunderbird()), "= A =\n= B =\n= C =\n");
    let tie = "= A =\n=B=\n";
    assert_eq!(Document::parse(tie).format(&Style::thunderbird()), tie);
}

#[test]
fn an_explicit_heading_style_is_enforced() {
    let src = "=A=\n== B ==\n";
    assert_eq!(Document::parse(src).format(&style(HeadingSpacing::Spaced, false)), "= A =\n== B ==\n");
    assert_eq!(Document::parse(src).format(&style(HeadingSpacing::Tight, false)), "=A=\n==B==\n");
}

#[test]
fn asymmetric_headings_are_not_reformatted() {
    let src = "==A=\n= B =\n";
    assert_eq!(Document::parse(src).format(&style(HeadingSpacing::Tight, false)), "==A=\n=B=\n");
}

#[test]
fn trailing_whitespace_is_stripped_outside_protected_regions() {
    let src = "a  \n<pre>x  </pre>  \nb\t\n";
    let out = Document::parse(src).format(&style(HeadingSpacing::PreserveDominant, true));
    assert_eq!(out, "a\n<pre>x  </pre>  \nb\n");
    assert_eq!(out.matches('\n').count(), src.matches('\n').count());
    let kept = Document::parse(src).format(&Style::default());
    assert_eq!(kept, src);
}

#[test]
fn formatting_keeps_the_number_of_lines() {
    let inputs = [
        "= A =\n==B==\n=C=  \ntext \n",
        "=[http://a\n= =\nx]",
        "=  {{tmpl\n}}  =\r\n== B==\r\n",
        " = A =\n\t=B=\n----\n",
    ];
    let styles = [
        style(HeadingSpacing::PreserveDominant, false),
        style(HeadingSpacing::PreserveDominant, true),
        style(HeadingSpacing::Spaced, false),
        style(HeadingSpacing::Spaced, true),
        style(HeadingSpacing::Tight, false),
        style(HeadingSpacing::Tight, true),
    ];
    for src in inputs {
        for st in &styles {
            let out = Document::parse(src).format(st);
            assert_eq!(out.matches('\n').count(), src.matches('\n').count(), "{:?}", src);
            if !st.trailing_whitespace {
                assert_eq!(out.lines().count(), src.lines().count(), "{:?}", src);
            }
        }
    }
    let link = "=[http://a\n= =\nx]";
    assert_eq!(Document::parse(link).format(&style(HeadingSpacing::Tight, false)), "=[http://a\n==\nx]");
    // Stripping keeps every line break, but a last line of only white space
    // becomes empty, which `str::lines` no longer counts.
    let blank_tail = "a\n  ";
    assert_eq!(Document::parse(blank_tail).format(&style(HeadingSpacing::PreserveDominant, true)), "a\n");
}

#[test]
fn format_takes_tokens_of_its_input() {
    let src = "=A=\n= B =\n= C =\n";
    let tokens = lex(src);
    assert_eq!(lib::style::format(src, &tokens, &Style::thunderbird()), "= A =\n= B =\n= C =\n");
}

#[test]
fn the_default_style_is_the_least_invasive() {
    let s = Style::default();
    assert_eq!(s.heading_spacing, HeadingSpacing::PreserveDominant);
    assert!(!s.trailing_whitespace);
    let t = Style::thunderbird();
    assert_eq!(t.heading_spacing, HeadingSpacing::PreserveDominant);
    assert!(!t.trailing_whitespace);
    assert_eq!(HeadingSpacing::default(), HeadingSpacing::PreserveDominant);
}

// ---------------------------------------------------------------------------
// Fixing
// ---------------------------------------------------------------------------

#[test]
fn nothing_to_fix_returns_the_source() {
    let src = "plain text\n";
    assert_eq!(Document::parse(src).apply_fixes(true), (src.to_string(), 0));
}

#[test]
fn unsafe_fixes_apply_only_on_request() {
    let d = Document::parse("==Asymmetric ===\n");
    assert_eq!(d.apply_fixes(false), ("==Asymmetric ===\n".to_string(), 0));
    assert_eq!(d.apply_fixes(true), ("== Asymmetric ==\n".to_string(), 1));
}

#[test]
fn reprint_gives_back_the_source() {
    for src in ["", "= H =\n", "héllo {for}x{/for}\n"] {
        let d = Document::parse(src);
        assert_eq!(d.reprint(), src);
        assert_eq!(d.source(), src);
        assert!(lib::lexer::tiles(d.tokens(), src.len()));
    }
}

#[test]
fn tokens_slice_their_text() {
    let src = "= H =\n";
    let tokens = lex(src);
    assert!(matches!(tokens[0].kind, TokenKind::HeadingMarker { level: 1 }));
    assert_eq!(tokens[0].text(src), "=");
    let joined: String = tokens.iter().map(|t| t.text(src)).collect();
    assert_eq!(joined, src);
}

#[test]
fn check_reports_in_code_order() {
    let src = "{note}x\n{for}y\n";
    let tokens = lex(src);
    let ds = check(src, &tokens);
    let codes: Vec<&str> = ds.iter().map(|d| d.code).collect();
    assert_eq!(codes, vec!["SW002", "SW001"]);
    assert!(ds[0].span.start < ds[1].span.start);
}

#[test]
fn rule_table_lists_every_code() {
    let r = rules();
    assert_eq!(r.len(), 11);
    assert_eq!(r[0].0, "SW001");
    assert_eq!(r[10].0, "SW011");
}

#[test]
fn diagnostics_build_and_name_their_parts() {
    let d = Diagnostic::new("SW004", Severity::Warning, "m".to_string(), 1..3);
    assert_eq!(d.fix, None);
    let f = Fix { span: 1..3, replacement: "x".to_string(), applicability: Applicability::Safe, description: "d".to_string() };
    let d = d.with_fix(f.clone());
    assert_eq!(d.fix, Some(f));
    assert_eq!(Severity::Error.as_str(), "error");
    assert_eq!(Severity::Warning.as_str(), "warning");
    assert_eq!(opaque_name(Opaque::Nowiki), "nowiki");
    assert_eq!(opaque_name(Opaque::Preformatted), "preformatted");
}

#[test]
fn line_col_counts_characters() {
    let src = "ab\nhé x";
    let p = line_col(src, 7);
    assert_eq!((p.line, p.col), (2, 4));
    let end = line_col(src, 100);
    assert_eq!((end.line, end.col), (2, 5));
}

// ---------------------------------------------------------------------------
// Language server pieces
// ---------------------------------------------------------------------------

#[test]
fn json_strings_are_escaped() {
    assert_eq!(json_str("a\"b\\c\n\r\t\u{1}é"), "\"a\\\"b\\\\c\\n\\r\\t\\u0001é\"");
}

#[test]
fn framing_round_trips() {
    let payload = "{\"x\":\"日本\"}";
    let framed = frame_message(payload);
    assert_eq!(framed, format!("Content-Length: {}\r\n\r\n{}", payload.len(), payload));
    assert_eq!(read_message(framed.as_bytes()), Some((payload.to_string(), framed.len())));
}

#[test]
fn incomplete_messages_wait_for_more_input() {
    assert_eq!(read_message(b"Content-Length: 10\r\n\r\nabc"), None);
    assert_eq!(read_message(b"Content-Length: 3\r\n"), None);
    assert_eq!(read_message(b""), None);
    assert_eq!(read_message(b"Content-Length: +3\r\nX-Other: 1\r\n\r\nabcdef"), Some(("abc".to_string(), 37)));
    assert_eq!(read_message(b"Content-Length: nope\r\n\r\nabc"), Some((String::new(), 24)));
}

#[test]
fn invalid_utf8_in_a_body_is_replaced() {
    let raw: &[u8] = b"Content-Length: 2\r\n\r\n\xff!";
    let (body, used) = read_message(raw).unwrap();
    assert_eq!(body, "\u{fffd}!");
    assert_eq!(used, raw.len());
}

#[test]
fn unicode_escapes_in_text_are_decoded() {
    let body = r#"{"text":"caf\u00e9 \ud800x \u+041 \u+41 \q"}"#;
    assert_eq!(extract_text(body).unwrap(), "café x A q");
    assert_eq!(extract_text(r#"{"uri":"a"}"#), None);
    assert_eq!(extract_text(r#"{"text":"open"#).unwrap(), "open");
}

#[test]
fn fields_are_read_and_unescaped() {
    let body = r#"{"id" : 12 , "uri":"file:\/\/x\\y\"z","n":"a"}"#;
    assert_eq!(field_raw(body, "id").unwrap(), "12");
    assert_eq!(field_str(body, "uri").unwrap(), "file://x\\y\\");
    assert_eq!(field_str(body, "missing"), None);
    assert_eq!(field_raw(r#"{"id":}"#, "id"), None);
    assert_eq!(unescape("a\\/b\\\\c\\\"d"), "a/b\\c\"d");
}

#[test]
fn numbers_must_fit() {
    assert_eq!(next_uint(r#""line":99999999999999999999999"#, "\"line\"", 0), None);
    assert_eq!(next_uint(r#""line": 7"#, "\"line\"", 0), Some((7, 6)));
    assert_eq!(next_uint(r#""line":x"#, "\"line\"", 0), None);
    assert_eq!(parse_range("{}"), None);
}

#[test]
fn positions_clamp_and_count_utf16() {
    let text = "a😀b\nc";
    assert_eq!(to_position(text, 5), (0, 3));
    assert_eq!(to_position(text, 100), (1, 1));
    assert_eq!(from_position(text, (0, 3)), 5);
    assert_eq!(from_position(text, (1, 7)), 8);
}

#[test]
fn responses_and_notifications_are_built() {
    assert_eq!(respond(Some("7"), "null"), r#"{"jsonrpc":"2.0","id":7,"result":null}"#);
    assert_eq!(respond(None, "[]"), r#"{"jsonrpc":"2.0","id":null,"result":[]}"#);
    assert_eq!(notify(r#"{"method":"x","params":{"a":{}}}"#), r#"{"jsonrpc":"2.0","method":"x","params":{"a":{}}}"#);
    assert_eq!(notify("{"), r#"{"jsonrpc":"2.0",}"#);
    assert_eq!(
        whole_document_edit("ab\nc", "x"),
        r#"{"range":{"start":{"line":0,"character":0},"end":{"line":1,"character":1}},"newText":"x"}"#
    );
}

#[test]
fn diagnostics_are_published() {
    let p = publish("file:///a", "{note}x\n");
    assert!(p.starts_with(r#"{"method":"textDocument/publishDiagnostics","params":{"uri":"file:///a","diagnostics":[{"range":"#));
    assert!(p.contains(r#""code":"SW002""#));
    assert_eq!(publish("u", "fine\n"), r#"{"method":"textDocument/publishDiagnostics","params":{"uri":"u","diagnostics":[]}}"#);
}

#[test]
fn unsafe_quick_fixes_say_so() {
    let text = "==A ===\n";
    let body = r#"{"range":{"start":{"line":0,"character":0},"end":{"line":0,"character":0}}}"#;
    let a = code_actions("u", text, body);
    assert!(a.contains(r#""title":"SW005: make both runs 2 `=` long (needs review)""#), "{a}");
    assert!(a.contains(r#""isPreferred":false"#), "{a}");
    assert!(!a.contains("source.fixAll"), "{a}");
}

#[test]
fn the_server_answers_each_message() {
    let mut docs = Docs::new();
    let (out, exit) = handle_message(&mut docs, r#"{"id":1,"method":"initialize"}"#);
    assert!(!exit);
    assert!(out[0].starts_with(r#"{"jsonrpc":"2.0","id":1,"result":{"capabilities":"#));
    let (out, _) = handle_message(
        &mut docs,
        r#"{"method":"textDocument/didOpen","params":{"textDocument":{"uri":"file:///a","text":"=A=\n= B =\n= C =\n"}}}"#,
    );
    assert!(out[0].starts_with(r#"{"jsonrpc":"2.0","method":"textDocument/publishDiagnostics""#));
    assert_eq!(docs.get("file:///a").unwrap(), "=A=\n= B =\n= C =\n");
    let (out, _) = handle_message(
        &mut docs,
        r#"{"id":2,"method":"textDocument/formatting","params":{"textDocument":{"uri":"file:///a"}}}"#,
    );
    assert!(out[0].contains(r#""newText":"= A =\n= B =\n= C =\n""#), "{}", out[0]);
    let (out, _) = handle_message(
        &mut docs,
        r#"{"method":"textDocument/didClose","params":{"textDocument":{"uri":"file:///a"}}}"#,
    );
    assert!(out[0].contains(r#""diagnostics":[]"#));
    assert!(docs.get("file:///a").is_none());
    let (out, _) = handle_message(&mut docs, r#"{"id":3,"method":"whatever"}"#);
    assert_eq!(out, vec![r#"{"jsonrpc":"2.0","id":3,"result":null}"#.to_string()]);
    let (out, _) = handle_message(&mut docs, r#"{"method":"whatever"}"#);
    assert!(out.is_empty());
    let (out, exit) = handle_message(&mut docs, r#"{"method":"exit"}"#);
    assert!(exit && out.is_empty());
}

#[test]
fn open_documents_keep_their_latest_text() {
    let mut docs = Docs::new();
    docs.insert("a".to_string(), "1".to_string());
    docs.insert("b".to_string(), "2".to_string());
    docs.insert("a".to_string(), "3".to_string());
    assert_eq!(docs.get("a").unwrap(), "3");
    docs.remove("a");
    assert!(docs.get("a").is_none());
    assert_eq!(docs.get("b").unwrap(), "2");
}

// ---------------------------------------------------------------------------
// Command line and browser results
// ---------------------------------------------------------------------------

#[test]
fn counts_are_pluralised() {
    assert_eq!(plural(1), "");
    assert_eq!(plural(0), "s");
    assert_eq!(plural(2), "s");
    assert_eq!(summary_line(1, 0, 2, 0), "checked 1 file: 0 errors, 2 warnings");
    assert_eq!(summary_line(3, 1, 1, 1), "checked 3 files: 1 error, 1 warning, 1 file fixed");
    assert_eq!(applied_line("a.wiki", 2, false), "a.wiki: applied 2 fixs");
    assert_eq!(applied_line("a.wiki", 1, true), "a.wiki: applied 1 fix and style changes");
    assert_eq!(applied_line("a.wiki", 0, true), "a.wiki: applied style changes");
}

#[test]
fn the_diff_pairs_lines_by_position() {
    assert_eq!(diff_lines("a\nb\nc\n", "a\nB\n"), vec!["-b", "+B", "-c"]);
    assert_eq!(diff_lines("a\r\n", "a\nd"), vec!["+d"]);
    assert!(diff_lines("same\n", "same").is_empty());
}

#[test]
fn reports_render_each_diagnostic() {
    let src = "x\n{note}y\n";
    let d = Document::parse(src);
    let ds = d.diagnostics();
    let pos = line_col(src, ds[0].span.start);
    let rows = text_rows("f.wiki", pos, &ds[0]);
    assert_eq!(rows.len(), 1);
    assert!(rows[0].starts_with("f.wiki:2:1: error [SW002] "), "{}", rows[0]);
    let j = json_row("f.wiki", pos, &ds[0]);
    assert!(j.starts_with(r#"{"file":"f.wiki","line":2,"column":1,"code":"SW002","severity":"error","message":"#), "{j}");
    assert!(j.ends_with(r#","fixable":false}"#), "{j}");
    assert_eq!(json_array(&vec!["1".to_string(), "2".to_string()]), "[1,2]");
    let fd = Document::parse("a **b**\n");
    let fds = fd.diagnostics();
    let rows = text_rows("g", line_col("a **b**\n", fds[0].span.start), &fds[0]);
    assert_eq!(rows[1], "    fix: rewrite as `'''bold'''`");
}

#[test]
fn lint_json_lists_diagnostics() {
    let json = lint_json("{for win}unclosed\n");
    assert!(json.contains("SW001"), "{json}");
    assert!(json.contains(r#""severity":"error""#), "{json}");
    assert_eq!(lint_json(""), "[]");
}

#[test]
fn fix_json_reports_applied_fixes() {
    let json = fix_json("see **bold** here\n", false);
    assert_eq!(json, r#"{"text":"see '''bold''' here\n","applied":1}"#);
    let json = fix_json("* outer\n** inner\n", false);
    assert!(json.contains(r#""applied":0"#), "{json}");
}

#[test]
fn style_json_reports_changes() {
    assert_eq!(style_json("=A=\n", 1), r#"{"text":"= A =\n","changed":true}"#);
    assert_eq!(style_json("=A=\n", 0), r#"{"text":"=A=\n","changed":false}"#);
    assert_eq!(style_json("= A =\n", 2), r#"{"text":"=A=\n","changed":true}"#);
}

#[test]
fn lint_over_the_c_abi() {
    let json = lint_json("{for win}unclosed\n");
    assert!(json.contains("SW001"), "{json}");
    assert!(json.contains(r#""severity":"error""#), "{json}");
}

#[test]
fn fix_over_the_c_abi() {
    let json = fix_json("see **bold** here\n", false);
    assert!(json.contains(r#""applied":1"#), "{json}");
    assert!(json.contains(r#"'''bold'''"#), "{json}");
}

#[test]
fn double_asterisk_at_line_start_is_a_list_not_bold() {
    let json = fix_json("* outer\n** inner\n", false);
    assert!(json.contains(r#""applied":0"#), "{json}");
}

#[test]
fn handles_empty_and_null_input() {
    assert!(Document::parse("").is_lossless());
    assert_eq!(lint_json(""), "[]");
}

#[test]
fn overlapping_fixes_are_dropped_not_merged() {
    let d = Document::parse("x [**a**](http://y)\n");
    let fixable = d.diagnostics().iter().filter(|x| x.fix.is_some()).count();
    let (fixed, n) = d.apply_fixes(false);
    assert_eq!(fixable, 2, "{:?}", d.diagnostics());
    assert_eq!(n, 1);
    assert_eq!(fixed, "x [http://y **a**]\n");
}

#[test]
fn a_line_of_only_equals_signs_is_not_a_heading_marker() {
    let src = "= T =\n==";
    let tokens = lex(src);
    let last = tokens.last().unwrap();
    assert_eq!(last.kind, TokenKind::Text);
    assert_eq!(last.span, 6..8);
    assert!(Document::parse(src).diagnostics().is_empty());
    // A closing run still closes its own heading line.
    let heading = lex("= T =\n");
    assert!(matches!(heading[2].kind, TokenKind::HeadingMarker { level: 1 }));
}

#[test]
fn the_text_field_is_found_whatever_the_text_holds() {
    for text in ["text", "say \"text", "\"text\": 1", "a\u{1}b\ttext\n", "caf\u{e9}"] {
        let body = format!("{{\"text\":{}}}", json_str(text));
        assert_eq!(extract_text(&body), Some(text.to_string()), "{body}");
    }
    assert_eq!(extract_text(r#"{"text":"text"}"#), Some("text".to_string()));
}

#[test]
fn formatting_settles() {
    let styles = [
        Style::thunderbird(),
        style(HeadingSpacing::Spaced, false),
        style(HeadingSpacing::Tight, false),
        style(HeadingSpacing::PreserveDominant, true),
    ];
    let inputs = [
        "= X ==\n= Y ==\n= =\n= =\n=A=\n",
        "=[http://a\n=c =\n==b] =\n",
        "= A =\n=B=\n==C==\n",
        "[http://x \n\n<pre>=]{note}=a----\n  ",
    ];
    for src in inputs {
        for st in &styles {
            let once = Document::parse(src).format(st);
            let twice = Document::parse(&once).format(st);
            assert_eq!(once, twice, "{:?}", src);
            assert!(Document::parse(&once).is_lossless());
        }
    }
    // `= =` counts as tight; written tight it would stop being a heading and
    // the majority would flip, so that rewrite is not made.
    let untitled = "= X ==\n= Y ==\n= =\n= =\n=A=\n";
    assert_eq!(Document::parse(untitled).format(&Style::thunderbird()), untitled);
    // A tie, counting `= =` as tight, leaves the text alone.
    let tie = "= A =\n= B =\n=C=\n= =\n";
    assert_eq!(Document::parse(tie).format(&Style::thunderbird()), tie);
    // `= =` is rewritten like any symmetric heading.
    assert_eq!(Document::parse("= A =\n=B=\n= =\n").format(&Style::thunderbird()), "=A=\n=B=\n==\n");
    // A rewrite that would change how the text lexes is not made.
    let unstable = "=[http://a\n=c =\n==b] =\n";
    assert_eq!(Document::parse(unstable).format(&Style::thunderbird()), unstable);
}

#[test]
fn one_file_is_fixed_then_styled() {
    let src = "=A=\n= B =\n= C =\nsee [docs](https://x.org)\n";
    let (fixed, n) = rewrite(src, true, false, None);
    assert_eq!(fixed, "=A=\n= B =\n= C =\nsee [https://x.org docs]\n");
    assert_eq!(n, 1);
    let (both, n) = rewrite(src, true, false, Some(Style::thunderbird()));
    assert_eq!(both, "= A =\n= B =\n= C =\nsee [https://x.org docs]\n");
    assert_eq!(n, 1);
    let (styled, n) = rewrite(src, false, false, Some(Style::thunderbird()));
    assert_eq!(styled, "= A =\n= B =\n= C =\nsee [docs](https://x.org)\n");
    assert_eq!(n, 0);
    assert_eq!(rewrite(src, false, false, None), (src.to_string(), 0));
}

#[test]
fn errors_decide_the_exit_code() {
    let doc = Document::parse("{for win}unclosed\n==A=\n");
    let ds = doc.diagnostics();
    let (errors, warnings) = tally(&ds);
    assert_eq!(errors + warnings, ds.len());
    assert!(errors >= 1);
    assert_eq!(exit_code(errors), 1);
    assert_eq!(exit_code(0), 0);
    assert_eq!(tally(&Vec::new()), (0, 0));
}
