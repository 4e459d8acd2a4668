# sumo-lint

A linter and formatter for the wiki markup of the SUMO (support.mozilla.org)
Knowledge Base, written in Verus: the library in `src/` is verified, and
`app/` wraps it in a command-line tool, a language server and a C ABI for the
browser build.

## Layout

- `src/scan.rs`: byte-level scanning helpers (literal search, Unicode white
  space, character boundaries, building strings).
- `src/lexer.rs`: the lexer. Its tokens tile the input exactly
  (`lemma_lex_tiles`), start and end on character boundaries
  (`lemma_lex_boundaries`), heading markers are runs of `=`
  (`lemma_lex_markers`) that open or close a heading line
  (`lemma_lex_placed`), and only a few kinds of token can hold a line break
  (`lemma_lex_nl`).
- `src/diagnostic.rs`: diagnostics, fixes, and byte offset to line/column.
- `src/rules.rs`: the lint rules `SW001`..`SW011`; `check` returns exactly the
  findings of `check_spec`, sorted by position and code
  (`lemma_check_ordered`). What some rules report is also stated directly:
  Markdown links and bold inside text tokens (`lemma_md_scan_reports`),
  unpaired `'''` on a bold marker (`lemma_bold_scan_reports`), unknown image
  parameters inside image links (`lemma_image_scan_reports`), and asymmetric
  or unclosed headings (`style::lemma_heading_scan_reports`).
- `src/lib.rs`: `Document` (parse, reprint, diagnose, fix, format) and the laws
  of fixing.
- `src/style.rs`: the house-style formatter, its no-churn laws
  (`lemma_format_keeps_a_lane`, `lemma_format_tie_leaves_text`), the law that formatting settles
  (`lemma_format_idempotent`), and the law that formatting keeps every line
  break (`lemma_format_keeps_lines`, `lemma_format_keeps_line_count`).
- `src/lsp.rs`: what the language server computes: UTF-16 positions (with
  their round trip), message framing (with its round trip), the small JSON
  reader and writer (with the round trip of a message's `text`,
  `lemma_extract_text_round_trip`), code actions, and the answer to each
  message.
- `src/cli.rs`, `src/web.rs`: report lines, the `--diff` line diff, one
  file's fix-then-style rewrite, the error tally and exit code, and the JSON
  results of the browser build.
- `tests/`: tests of the library.
- `app/`: `main` for the command line (and, under the name `sumo-lint-lsp`,
  the language server's stdio loop), plus the C ABI.
