use lib::{Applicability, Document};

fn round_trips(src: &str) {
    let d = Document::parse(src);
    assert!(d.is_lossless(), "not lossless: {src:?}\ntokens: {:#?}", d.tokens());
}

#[test]
fn round_trips_representative_markup() {
    for src in [
        "",
        "\n",
        "plain text",
        "= Heading =\n",
        "=Tight=\n",
        "== Level two ==\n",
        "'''bold''' and ''italic''\n",
        "'''''bold italic'''''\n",
        "{for win,mac}Tools{/for}{for linux}Edit{/for}\n",
        "{note}'''NOTE''': careful{/note}\n",
        "{warning}danger{/warning}\n",
        "{key Ctrl+T} {button OK} {menu Settings} {filepath /tmp} {pref foo.bar}\n",
        "[[Image:Foo.png|width=300|align=left]]\n",
        "[[Page Title|text]] [[T:Template]] [[Video:https://x]] [[UI:details_start]]\n",
        "[http://example.com Label]\n",
        "__TOC__\n----\n",
        "* a\n*# b\n; def\n",
        "<nowiki>{for this} '''not markup'''</nowiki>\n",
        "<code>=== registry ===</code>\n",
        "<!-- {note} ignored -->\n",
        "text<br>more<strong>x</strong>\n",
        "{| \n|+ cap\n!a!!b\n|-\n|c||d\n|}\n",
        "unterminated <code>forever",
        "trailing spaces   \n\ttab\r\n",
        "héllo — ünïcode ✓ 日本語\n",
        "{for}bare condition{/for}\n",
    ] {
        round_trips(src);
    }
}

#[test]
fn opaque_regions_match_kitsune_semantics() {
    for src in ["<nowiki>{note}x</nowiki>\n", "<pre>{note}x</pre>\n"] {
        let d = Document::parse(src);
        assert!(d.diagnostics().is_empty(), "{src:?} -> {:?}", d.diagnostics());
    }
    let d = Document::parse(" === Registry file ===\n Version 5.00\n ===\n");
    assert!(d.diagnostics().is_empty(), "{:?}", d.diagnostics());
    let d = Document::parse("{note}real<code>{/note}</code>\n");
    assert!(d.diagnostics().is_empty(), "{:?}", d.diagnostics());
    let d = Document::parse("<code>{/note}</code>\n");
    assert!(d.diagnostics().iter().any(|x| x.code == "SW002"), "{:?}", d.diagnostics());
}

#[test]
fn bold_inside_external_link_label_is_counted() {
    let src = "* Configure [https://x.example/a Thunderbird Send'''] for files.\n";
    let d = Document::parse(src);
    assert!(d.diagnostics().iter().any(|x| x.code == "SW004"), "{:?}", d.diagnostics());
}

#[test]
fn for_blocks_nested_in_macros_pair_correctly() {
    let d = Document::parse("{menu {for win}Open Containing Folder{/for}{for mac}Show in Finder{/for}}\n");
    assert!(d.is_lossless());
    assert!(d.diagnostics().is_empty(), "{:?}", d.diagnostics());
}

#[test]
fn multiline_bold_italic_is_balanced() {
    let d = Document::parse("'''''Based on information from\n* [[A]]\n* [http://x B]'''''\n");
    assert!(!d.diagnostics().iter().any(|x| x.code == "SW004"), "{:?}", d.diagnostics());
}

#[test]
fn detects_unbalanced_bold() {
    let d = Document::parse("* '''Authentication method: '''OAuth2'''\n");
    let codes: Vec<_> = d.diagnostics().iter().map(|x| x.code).collect();
    assert!(codes.contains(&"SW004"), "{codes:?}");
}

#[test]
fn detects_unclosed_blocks() {
    for (src, code) in [
        ("{for win}x\n", "SW001"),
        ("{/for}\n", "SW001"),
        ("{note}x\n", "SW002"),
        ("{warning}x\n", "SW003"),
    ] {
        let d = Document::parse(src);
        assert!(
            d.diagnostics().iter().any(|x| x.code == code),
            "{src:?} should report {code}, got {:?}",
            d.diagnostics()
        );
    }
}

#[test]
fn detects_bad_image_param() {
    let d = Document::parse("[[Image:a.png|width=300|bogus=7]]\n");
    let ds = d.diagnostics();
    let sw006: Vec<_> = ds.iter().filter(|x| x.code == "SW006").collect();
    assert_eq!(sw006.len(), 1, "only `bogus` is unknown: {ds:?}");
    assert!(sw006[0].message.contains("`bogus`"), "{ds:?}");
    assert_eq!(&d.source()[sw006[0].span.clone()], "bogus");
}

#[test]
fn markdown_syntax_is_fixed_safely() {
    let d = Document::parse("see [label](http://example.com) and **bold**\n");
    let (fixed, n) = d.apply_fixes(false);
    assert_eq!(n, 2, "{:?}", d.diagnostics());
    assert_eq!(fixed, "see [http://example.com label] and '''bold'''\n");
    assert!(Document::parse(&fixed).diagnostics().is_empty());
}

#[test]
fn asymmetric_heading_reported_but_fix_is_unsafe() {
    let d = Document::parse("==Asymmetric ===\n");
    let ds = d.diagnostics();
    let sw005 = ds.iter().find(|x| x.code == "SW005").expect("SW005");
    assert_eq!(sw005.fix.as_ref().unwrap().applicability, Applicability::Unsafe);
    assert_eq!(d.apply_fixes(false).1, 0);
}

#[test]
fn fixes_never_break_round_trip() {
    let d = Document::parse("* \n**bold** [x](http://y)\n");
    let (fixed, _) = d.apply_fixes(false);
    assert!(Document::parse(&fixed).is_lossless());
}
