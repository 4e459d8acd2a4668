use lib::lsp::{code_actions, extract_text, field_raw, field_str, from_position, parse_range, read_message, to_position};

#[test]
fn utf16_positions_account_for_wide_characters() {
    let text = "日本語x\n";
    assert_eq!(to_position(text, 0), (0, 0));
    assert_eq!(to_position(text, 9), (0, 3));
    assert_eq!(to_position(text, 10), (0, 4));
    let text = "😀x";
    assert_eq!(to_position(text, 4), (0, 2), "astral char is 2 UTF-16 units");
}

#[test]
fn extracts_text_with_escapes() {
    let body = r#"{"params":{"textDocument":{"uri":"file:///a.wiki","text":"a\nb\"c\\d"}}}"#;
    assert_eq!(extract_text(body).unwrap(), "a\nb\"c\\d");
    assert_eq!(field_str(body, "uri").unwrap(), "file:///a.wiki");
}

#[test]
fn positions_round_trip_through_bytes() {
    let text = "日本語x\nsecond line\n";
    for offset in (0..=text.len()).filter(|o| text.is_char_boundary(*o)) {
        assert_eq!(from_position(text, to_position(text, offset)), offset, "offset {offset}");
    }
    assert_eq!(from_position(text, (0, 99)), 10, "past end of line 1");
    assert_eq!(from_position(text, (9, 0)), text.len(), "past end of text");
}

#[test]
fn parses_the_params_range_not_a_diagnostic_range() {
    let body = r#"{"id":3,"method":"textDocument/codeAction","params":{"textDocument":{"uri":"file:///a.wiki"},"range":{"start":{"line":2,"character":4},"end":{"line":2,"character":9}},"context":{"diagnostics":[{"range":{"start":{"line":7,"character":0},"end":{"line":7,"character":1}}}]}}}"#;
    assert_eq!(parse_range(body).unwrap(), ((2, 4), (2, 9)));
}

#[test]
fn quick_fix_rewrites_a_markdown_link_as_wiki_syntax() {
    let text = "See [linktext](https://someurl.com) here.\n";
    let body = r#"{"params":{"textDocument":{"uri":"file:///a.wiki"},"range":{"start":{"line":0,"character":6},"end":{"line":0,"character":6}},"context":{"diagnostics":[]}}}"#;
    let actions = code_actions("file:///a.wiki", text, body);
    assert!(
        actions.contains(r#""newText":"[https://someurl.com linktext]""#),
        "quick fix should insert wiki link syntax, got: {actions}"
    );
    assert!(actions.contains(r#""title":"SW009: rewrite as wiki link syntax""#));
    assert!(actions.contains(r#""isPreferred":true"#), "a safe fix is the preferred/auto fix");
    assert!(actions.contains(r#""range":{"start":{"line":0,"character":4},"end":{"line":0,"character":35}}"#));
    assert!(actions.contains(r#""kind":"source.fixAll.sumo-lint""#));
    assert!(actions.contains(r#""title":"sumo-lint: apply 1 safe fix""#));
}

#[test]
fn quick_fixes_are_limited_to_the_requested_range() {
    let text = "[a](http://x)\nsee **bold** here\n";
    let range = |line: usize| {
        format!(
            r#"{{"params":{{"range":{{"start":{{"line":{line},"character":0}},"end":{{"line":{line},"character":99}}}}}}}}"#
        )
    };
    let first = code_actions("file:///a.wiki", text, &range(0));
    assert!(first.contains("SW009"), "got: {first}");
    assert!(!first.contains("SW010"), "line 1's fix must not be offered on line 0: {first}");
    let second = code_actions("file:///a.wiki", text, &range(1));
    assert!(second.contains("SW010"), "got: {second}");
    assert!(!second.contains("SW009"), "line 0's fix must not be offered on line 1: {second}");
}

#[test]
fn no_diagnostics_means_no_actions() {
    let clean = "See [https://someurl.com linktext] here.\n";
    let body = r#"{"params":{"range":{"start":{"line":0,"character":0},"end":{"line":0,"character":0}}}}"#;
    assert_eq!(code_actions("file:///a.wiki", clean, body), "[]");
}

#[test]
fn reads_framed_messages() {
    let payload = r#"{"jsonrpc":"2.0","id":1,"method":"initialize"}"#;
    let raw = format!("Content-Length: {}\r\n\r\n{}", payload.len(), payload);
    let (got, used) = read_message(raw.as_bytes()).unwrap();
    assert_eq!(got, payload);
    assert_eq!(used, raw.len());
    assert_eq!(field_str(&got, "method").unwrap(), "initialize");
    assert_eq!(field_raw(&got, "id").unwrap(), "1");
}
