//! Lossless lexer for SUMO wiki markup.
//!
//! The tokens returned by [`lex`] **tile the input exactly**: their spans are
//! contiguous, start at 0, end at the input's length in bytes, and never
//! overlap, so concatenating their text reproduces the input byte for byte.
//! [`lemma_lex_tiles`] proves this for every input, and
//! [`lemma_lex_boundaries`] that every span edge falls on a character boundary.
//!
//! The lexer is specified by [`lex_spec`]: a left-to-right scan whose single
//! step, [`lex_step`], looks at the byte at the current position and either
//! emits tokens or moves on by one byte. All delimiters are ASCII, so moving
//! byte by byte never matches anything inside a multi-byte character.
use vstd::prelude::*;
use vstd::utf8::*;
use vstd::string::*;
use std::ops::Range;
use crate::scan::{
    lemma_boundary_after_ascii, lemma_boundary_ascii, lemma_boundary_ends, lemma_skip_ws_boundary,
    blank, bytes_match_at, bytes_match_at_ci, count_run, find_byte, find_lit, find_lit_ci, lemma_first_byte,
    lemma_first_match, lemma_first_match_ci, lemma_run_len, lemma_skip_ws, lemma_skip_ws_back, skip_ws_back_exec,
    skip_ws_exec, trim_range,
    first_byte, first_match, first_match_ci, lower, matches_at, matches_at_ci, run_len, skip_ws,
    skip_ws_back, slice_ok, substr, trimmed, ws_at,
};

verus! {

broadcast use vstd::seq::group_seq_axioms;

// ---------------------------------------------------------------------------
// Tokens
// ---------------------------------------------------------------------------

/// Regions where wiki markup is **not** interpreted.
///
/// `<code>` is deliberately absent: Kitsune treats it as ordinary inline HTML,
/// so a `{/note}` inside a code span still closes a note block.
#[derive(Debug, Clone, Copy, PartialEq, Eq, Structural)]
pub enum Opaque {
    Nowiki,
    Pre,
    Comment,
    /// A line beginning with a space, rendered preformatted.
    Preformatted,
}

/// Which wiki-link family a `[[...]]` construct belongs to.
#[derive(Debug, Clone, Copy, PartialEq, Eq, Structural)]
pub enum LinkKind {
    Image,
    Video,
    Ui,
    Template,
    Include,
    /// Ordinary internal article link, `[[Page]]` or `[[Page|text]]`.
    Internal,
}

/// Inline macros of the form `{name arg}`.
#[derive(Debug, Clone, Copy, PartialEq, Eq, Structural)]
pub enum MacroKind {
    Key,
    Button,
    Menu,
    Filepath,
    Pref,
}

#[derive(Debug, Clone, Copy, PartialEq, Eq, Structural)]
pub enum TokenKind {
    Text,
    /// Exactly one `\n`. `\r` is kept in the preceding `Text`.
    Newline,
    /// A run of `=` at the start or end of a heading line.
    HeadingMarker { level: usize },
    /// `'''`
    Bold,
    /// `''` not part of a longer quote run.
    Italic,
    /// `{for}` or `{for cond}`.
    ForOpen,
    /// `{/for}`
    ForClose,
    /// `{note}` / `{warning}`
    BlockOpen { warning: bool },
    /// `{/note}` / `{/warning}`
    BlockClose { warning: bool },
    /// The `{name ` opener of an inline macro; its argument is lexed normally,
    /// so `{for}` blocks nested inside a macro still pair up.
    MacroOpen { kind: MacroKind },
    /// The `}` closing a [`TokenKind::MacroOpen`].
    MacroClose,
    /// A complete `[[...]]` construct.
    Link { kind: LinkKind },
    /// `[[` or `]]` that has no partner.
    DanglingBracket { open: bool },
    /// A complete `[http://url]` with no label.
    ExternalLink,
    /// The `[url ` opener of a labelled external link; the label is lexed
    /// normally so markup inside it stays visible.
    ExternalLinkOpen,
    /// The `]` closing a [`TokenKind::ExternalLinkOpen`].
    ExternalLinkClose,
    /// A raw HTML tag such as `<br>` or `</strong>`.
    HtmlTag,
    Toc,
    /// `----` or longer, alone on a line.
    HorizontalRule,
    /// Leading `*`/`#` run, or a leading `;`.
    ListMarker,
    /// Opaque region, including its delimiters.
    Opaque { kind: Opaque },
}

#[derive(Debug, PartialEq, Eq)]
pub struct Token {
    pub kind: TokenKind,
    pub span: Range<usize>,
}

impl Clone for Token {
    fn clone(&self) -> (r: Self)
        ensures
            r == *self,
    {
        Token { kind: self.kind, span: self.span.start..self.span.end }
    }
}

impl Token {
    /// The slice of `input` this token covers.
    pub fn text<'a>(&self, input: &'a str) -> (r: &'a str)
        requires
            slice_ok(input.spec_bytes(), self.span.start as int, self.span.end as int),
        ensures
            r.spec_bytes() == input.spec_bytes().subrange(
                self.span.start as int,
                self.span.end as int,
            ),
    {
        substr(input, self.span.start, self.span.end)
    }
}

pub open spec fn tok(kind: TokenKind, a: int, e: int) -> Token {
    Token { kind: kind, span: Range { start: a as usize, end: e as usize } }
}

// ---------------------------------------------------------------------------
// Tiling
// ---------------------------------------------------------------------------

/// The tokens are contiguous, each non-empty-or-empty span starting where
/// the previous one ended, beginning at `at` and ending at `len`.
pub open spec fn tiles_from(ts: Seq<Token>, at: int, len: int) -> bool
    decreases ts.len(),
{
    if ts.len() == 0 {
        at == len
    } else {
        &&& ts[0].span.start == at
        &&& ts[0].span.start <= ts[0].span.end
        &&& tiles_from(ts.drop_first(), ts[0].span.end as int, len)
    }
}

/// True if the tokens are contiguous and cover exactly `0..len`.
pub fn tiles(tokens: &[Token], len: usize) -> (r: bool)
    ensures
        r == tiles_from(tokens@, 0, len as int),
{
    let mut at: usize = 0;
    let mut k: usize = 0;
    proof {
        assert(tokens@.subrange(0, tokens@.len() as int) =~= tokens@);
    }
    while k < tokens.len()
        invariant
            k <= tokens@.len(),
            tiles_from(tokens@, 0, len as int) == tiles_from(
                tokens@.subrange(k as int, tokens@.len() as int),
                at as int,
                len as int,
            ),
        decreases tokens.len() - k,
    {
        let ghost rest = tokens@.subrange(k as int, tokens@.len() as int);
        assert(rest.drop_first() =~= tokens@.subrange(k + 1, tokens@.len() as int));
        let t = &tokens[k];
        if t.span.start != at || t.span.end < t.span.start {
            return false;
        }
        at = t.span.end;
        k += 1;
    }
    proof {
        assert(tokens@.subrange(k as int, tokens@.len() as int).len() == 0);
    }
    at == len
}

pub proof fn lemma_tiles_concat(xs: Seq<Token>, ys: Seq<Token>, a: int, c: int, len: int)
    requires
        tiles_from(xs, a, c),
        tiles_from(ys, c, len),
    ensures
        tiles_from(xs + ys, a, len),
    decreases xs.len(),
{
    if xs.len() == 0 {
        assert(xs + ys =~= ys);
    } else {
        lemma_tiles_concat(xs.drop_first(), ys, xs[0].span.end as int, c, len);
        assert((xs + ys).drop_first() =~= xs.drop_first() + ys);
    }
}

/// Tiling, stated position by position.
pub proof fn lemma_tiles_index(ts: Seq<Token>, at: int, len: int)
    requires
        tiles_from(ts, at, len),
    ensures
        ts.len() == 0 ==> at == len,
        ts.len() > 0 ==> ts[0].span.start == at && ts[ts.len() - 1].span.end == len,
        forall|k: int| 0 <= k < ts.len() ==> #[trigger] ts[k].span.start <= ts[k].span.end,
        forall|k: int| 0 <= k < ts.len() - 1 ==> #[trigger] ts[k].span.end == ts[k + 1].span.start,
        forall|k: int| 0 <= k < ts.len() ==> at <= #[trigger] ts[k].span.start,
    decreases ts.len(),
{
    if ts.len() > 0 {
        let rest = ts.drop_first();
        lemma_tiles_index(rest, ts[0].span.end as int, len);
        assert forall|k: int| 0 <= k < ts.len() - 1 implies #[trigger] ts[k].span.end == ts[k
            + 1].span.start by {
            assert(rest[k] == ts[k + 1]);
            if k > 0 {
                assert(rest[k - 1] == ts[k]);
                assert(rest[k - 1].span.end == rest[k].span.start);
            } else {
                assert(rest[0].span.start == ts[0].span.end);
            }
        }
        assert forall|k: int| 0 <= k < ts.len() implies #[trigger] ts[k].span.start
            <= ts[k].span.end && at <= ts[k].span.start by {
            if k > 0 {
                assert(rest[k - 1] == ts[k]);
            }
        }
    }
}

// ---------------------------------------------------------------------------
// Bytes and literals
// ---------------------------------------------------------------------------

pub const NL: u8 = 10;
pub const CR: u8 = 13;
pub const SPACE: u8 = 32;
pub const BANG: u8 = 33;
pub const HASH: u8 = 35;
pub const QUOTE: u8 = 39;
pub const STAR: u8 = 42;
pub const DASH: u8 = 45;
pub const SLASH: u8 = 47;
pub const COLON: u8 = 58;
pub const SEMI: u8 = 59;
pub const LT: u8 = 60;
pub const EQ: u8 = 61;
pub const GT: u8 = 62;
pub const LBRACKET: u8 = 91;
pub const RBRACKET: u8 = 93;
pub const LBRACE: u8 = 123;
pub const PIPE: u8 = 124;
pub const RBRACE: u8 = 125;

pub open spec fn is_alpha(c: u8) -> bool {
    (65 <= c && c <= 90) || (97 <= c && c <= 122)
}

/// `<!--`, `<nowiki>`, `<pre>`: the openers of regions that suppress markup.
pub open spec fn opaque_open(k: int) -> Seq<u8> {
    if k == 0 {
        seq![60u8, 33, 45, 45]
    } else if k == 1 {
        seq![60u8, 110, 111, 119, 105, 107, 105, 62]
    } else {
        seq![60u8, 112, 114, 101, 62]
    }
}

/// `-->`, `</nowiki>`, `</pre>`.
pub open spec fn opaque_close(k: int) -> Seq<u8> {
    if k == 0 {
        seq![45u8, 45, 62]
    } else if k == 1 {
        seq![60u8, 47, 110, 111, 119, 105, 107, 105, 62]
    } else {
        seq![60u8, 47, 112, 114, 101, 62]
    }
}

pub open spec fn opaque_kind(k: int) -> Opaque {
    if k == 0 {
        Opaque::Comment
    } else if k == 1 {
        Opaque::Nowiki
    } else {
        Opaque::Pre
    }
}

fn opaque_open_lit(k: usize) -> (r: Vec<u8>)
    ensures
        r@ == opaque_open(k as int),
{
    if k == 0 {
        vec![60u8, 33, 45, 45]
    } else if k == 1 {
        vec![60u8, 110, 111, 119, 105, 107, 105, 62]
    } else {
        vec![60u8, 112, 114, 101, 62]
    }
}

fn opaque_close_lit(k: usize) -> (r: Vec<u8>)
    ensures
        r@ == opaque_close(k as int),
{
    if k == 0 {
        vec![45u8, 45, 62]
    } else if k == 1 {
        vec![60u8, 47, 110, 111, 119, 105, 107, 105, 62]
    } else {
        vec![60u8, 47, 112, 114, 101, 62]
    }
}

/// `{/for}`
pub open spec fn lit_for_close() -> Seq<u8> {
    seq![123u8, 47, 102, 111, 114, 125]
}

/// `{note}`
pub open spec fn lit_note() -> Seq<u8> {
    seq![123u8, 110, 111, 116, 101, 125]
}

/// `{warning}`
pub open spec fn lit_warning() -> Seq<u8> {
    seq![123u8, 119, 97, 114, 110, 105, 110, 103, 125]
}

/// `{/note}`
pub open spec fn lit_note_close() -> Seq<u8> {
    seq![123u8, 47, 110, 111, 116, 101, 125]
}

/// `{/warning}`
pub open spec fn lit_warning_close() -> Seq<u8> {
    seq![123u8, 47, 119, 97, 114, 110, 105, 110, 103, 125]
}

/// `{for}`
pub open spec fn lit_for_bare() -> Seq<u8> {
    seq![123u8, 102, 111, 114, 125]
}

/// `{for `
pub open spec fn lit_for_cond() -> Seq<u8> {
    seq![123u8, 102, 111, 114, 32]
}

/// `{key `, `{button `, `{menu `, `{filepath `, `{pref `.
pub open spec fn macro_lit(k: int) -> Seq<u8> {
    if k == 0 {
        seq![123u8, 107, 101, 121, 32]
    } else if k == 1 {
        seq![123u8, 98, 117, 116, 116, 111, 110, 32]
    } else if k == 2 {
        seq![123u8, 109, 101, 110, 117, 32]
    } else if k == 3 {
        seq![123u8, 102, 105, 108, 101, 112, 97, 116, 104, 32]
    } else {
        seq![123u8, 112, 114, 101, 102, 32]
    }
}

pub open spec fn macro_kind(k: int) -> MacroKind {
    if k == 0 {
        MacroKind::Key
    } else if k == 1 {
        MacroKind::Button
    } else if k == 2 {
        MacroKind::Menu
    } else if k == 3 {
        MacroKind::Filepath
    } else {
        MacroKind::Pref
    }
}

fn macro_lit_exec(k: usize) -> (r: Vec<u8>)
    ensures
        r@ == macro_lit(k as int),
{
    if k == 0 {
        vec![123u8, 107, 101, 121, 32]
    } else if k == 1 {
        vec![123u8, 98, 117, 116, 116, 111, 110, 32]
    } else if k == 2 {
        vec![123u8, 109, 101, 110, 117, 32]
    } else if k == 3 {
        vec![123u8, 102, 105, 108, 101, 112, 97, 116, 104, 32]
    } else {
        vec![123u8, 112, 114, 101, 102, 32]
    }
}

fn macro_kind_exec(k: usize) -> (r: MacroKind)
    ensures
        r == macro_kind(k as int),
{
    if k == 0 {
        MacroKind::Key
    } else if k == 1 {
        MacroKind::Button
    } else if k == 2 {
        MacroKind::Menu
    } else if k == 3 {
        MacroKind::Filepath
    } else {
        MacroKind::Pref
    }
}

/// `[http://`
pub open spec fn lit_http() -> Seq<u8> {
    seq![91u8, 104, 116, 116, 112, 58, 47, 47]
}

/// `[https://`
pub open spec fn lit_https() -> Seq<u8> {
    seq![91u8, 104, 116, 116, 112, 115, 58, 47, 47]
}

/// `__TOC__`
pub open spec fn lit_toc() -> Seq<u8> {
    seq![95u8, 95, 84, 79, 67, 95, 95]
}

/// `]]`
pub open spec fn lit_close_link() -> Seq<u8> {
    seq![93u8, 93]
}


/// The names recognised before the `:` of a `[[...]]` link.
pub open spec fn name_image() -> Seq<u8> { seq![105u8, 109, 97, 103, 101] }
pub open spec fn name_video() -> Seq<u8> { seq![118u8, 105, 100, 101, 111] }
pub open spec fn name_v() -> Seq<u8> { seq![118u8] }
pub open spec fn name_ui() -> Seq<u8> { seq![117u8, 105] }
pub open spec fn name_template() -> Seq<u8> { seq![116u8, 101, 109, 112, 108, 97, 116, 101] }
pub open spec fn name_t() -> Seq<u8> { seq![116u8] }
pub open spec fn name_include() -> Seq<u8> { seq![105u8, 110, 99, 108, 117, 100, 101] }
pub open spec fn name_i() -> Seq<u8> { seq![105u8] }

// ---------------------------------------------------------------------------
// Recognisers
// ---------------------------------------------------------------------------

/// The end of the line containing `i`: the next `\n`, or the end of input.
pub open spec fn line_end(b: Seq<u8>, i: int) -> int {
    match first_byte(b, NL, i, b.len() as int) {
        Some(p) => p,
        None => b.len() as int,
    }
}

/// Every byte of `b[a..e]` is `c`.
pub open spec fn all_bytes(b: Seq<u8>, c: u8, a: int, e: int) -> bool {
    forall|q: int| a <= q < e ==> b[q] == c
}

/// Length of the run of `c` ending just before `q`, not reaching below `start`.
pub open spec fn run_len_back(b: Seq<u8>, c: u8, start: int, q: int) -> int
    decreases q - start,
{
    if start < q && b[q - 1] == c {
        1 + run_len_back(b, c, start, q - 1)
    } else {
        0
    }
}

/// The last position in `from..to` holding byte `c`.
pub open spec fn last_byte(b: Seq<u8>, c: u8, from: int, to: int) -> Option<int>
    decreases to - from,
{
    if to <= from {
        None
    } else if b[to - 1] == c {
        Some(to - 1)
    } else {
        last_byte(b, c, from, to - 1)
    }
}

/// Number of leading `*`/`#` bytes from `p`, before `e`.
pub open spec fn list_run(b: Seq<u8>, p: int, e: int) -> int
    decreases e - p,
{
    if p < e && (b[p] == STAR || b[p] == HASH) {
        1 + list_run(b, p + 1, e)
    } else {
        0
    }
}

/// Which opaque region, if any, opens at `i` (first match in table order).
pub open spec fn opaque_at(b: Seq<u8>, i: int) -> Option<int> {
    if matches_at_ci(b, i, opaque_open(0)) {
        Some(0)
    } else if matches_at_ci(b, i, opaque_open(1)) {
        Some(1)
    } else if matches_at_ci(b, i, opaque_open(2)) {
        Some(2)
    } else {
        None
    }
}

/// Where an opaque region of kind `k` opened at `i` ends: after its closing
/// delimiter, or at the end of input if it is never closed.
pub open spec fn opaque_end(b: Seq<u8>, i: int, k: int) -> int {
    match first_match_ci(b, opaque_close(k), i + opaque_open(k).len()) {
        Some(p) => p + opaque_close(k).len(),
        None => b.len() as int,
    }
}

/// End offset of an HTML tag starting at `i`, if it looks like one: an
/// ASCII letter (after an optional `/`), then up to the first `>` with no
/// newline or `<` in between.
pub open spec fn html_tag_end(b: Seq<u8>, i: int) -> Option<int> {
    let r = i + 1;
    let body = if r < b.len() && b[r] == SLASH {
        r + 1
    } else {
        r
    };
    if !(body < b.len() && is_alpha(b[body])) {
        None
    } else {
        match first_byte(b, GT, r, b.len() as int) {
            None => None,
            Some(g) => if first_byte(b, NL, r, g) is Some || first_byte(b, LT, r, g) is Some {
                None
            } else {
                Some(g + 1)
            },
        }
    }
}

/// If the line `b[i..e]` is a heading, the lengths of its opening and
/// closing `=` runs: it must start with `=`, be at least two bytes once
/// trimmed, not be only `=`, and have no `=` between the runs.
pub open spec fn heading_markers(b: Seq<u8>, i: int, e: int) -> Option<(int, int)> {
    let ts = trimmed(b, i, e).0;
    let te = trimmed(b, i, e).1;
    if !(te - ts >= 2 && b[ts] == EQ) {
        None
    } else {
        let open = run_len(b, EQ, ts, te);
        let close = run_len_back(b, EQ, ts, te);
        if open == te - ts {
            None
        } else if first_byte(b, EQ, ts + open, te - close) is Some {
            None
        } else {
            Some((open, close))
        }
    }
}

/// What a line starting at `i` begins with, among the line-anchored constructs.
#[derive(Debug, Clone, Copy, PartialEq, Eq, Structural)]
pub enum LineHit {
    /// A space-indented line, up to `end`.
    Preformatted { end: usize },
    /// `----`, from `start` (after the indentation) to `end`.
    Rule { start: usize, end: usize },
    /// The opening `=` run of a heading.
    Heading { start: usize, level: usize },
    /// A list or definition marker.
    List { start: usize, len: usize },
}

pub open spec fn line_hit(b: Seq<u8>, i: int) -> Option<LineHit> {
    let e = line_end(b, i);
    let ts = trimmed(b, i, e).0;
    let te = trimmed(b, i, e).1;
    let start = skip_ws(b, i, e);
    if i < e && b[i] == SPACE && ts < te {
        Some(LineHit::Preformatted { end: e as usize })
    } else if te - ts >= 4 && all_bytes(b, DASH, ts, te) {
        Some(LineHit::Rule { start: start as usize, end: e as usize })
    } else if heading_markers(b, i, e) is Some {
        Some(LineHit::Heading { start: start as usize, level: (heading_markers(b, i, e)->0).0 as usize })
    } else if list_run(b, start, e) > 0 {
        Some(LineHit::List { start: start as usize, len: list_run(b, start, e) as usize })
    } else if start < e && b[start] == SEMI {
        Some(LineHit::List { start: start as usize, len: 1 })
    } else {
        None
    }
}

/// The line holding `i` opens, after white space, with `=` before `i`, and
/// holds something other than `=` between that and `i`.
pub open spec fn line_opens_before(b: Seq<u8>, i: int) -> bool {
    let ls = match last_byte(b, NL, 0, i) {
        Some(p) => p + 1,
        None => 0,
    };
    let p = skip_ws(b, ls, i);
    p < i && b[p] == EQ && !all_bytes(b, EQ, p, i)
}

/// The `=` run at `i` closes a heading: only `=` then white space follow to
/// the end of its line, and that line opens with `=` and holds more than
/// `=` before `i`. A line of only `=` closes nothing.
pub open spec fn in_heading_tail(b: Seq<u8>, i: int) -> bool {
    let e = line_end(b, i);
    &&& i < e
    &&& all_bytes(b, EQ, i, skip_ws_back(b, i, e))
    &&& line_opens_before(b, i)
}

/// Which inline macro opener, if any, starts at `i`.
pub open spec fn macro_at(b: Seq<u8>, i: int) -> Option<int> {
    if matches_at(b, i, macro_lit(0)) {
        Some(0)
    } else if matches_at(b, i, macro_lit(1)) {
        Some(1)
    } else if matches_at(b, i, macro_lit(2)) {
        Some(2)
    } else if matches_at(b, i, macro_lit(3)) {
        Some(3)
    } else if matches_at(b, i, macro_lit(4)) {
        Some(4)
    } else {
        None
    }
}

/// The brace construct starting at `i`, and its length.
pub open spec fn brace_hit(b: Seq<u8>, i: int) -> Option<(TokenKind, int)> {
    if matches_at(b, i, lit_for_close()) {
        Some((TokenKind::ForClose, 6))
    } else if matches_at(b, i, lit_note()) {
        Some((TokenKind::BlockOpen { warning: false }, 6))
    } else if matches_at(b, i, lit_warning()) {
        Some((TokenKind::BlockOpen { warning: true }, 9))
    } else if matches_at(b, i, lit_note_close()) {
        Some((TokenKind::BlockClose { warning: false }, 7))
    } else if matches_at(b, i, lit_warning_close()) {
        Some((TokenKind::BlockClose { warning: true }, 10))
    } else if matches_at(b, i, lit_for_bare()) || matches_at(b, i, lit_for_cond()) {
        match first_byte(b, RBRACE, i, b.len() as int) {
            Some(c) => Some((TokenKind::ForOpen, c - i + 1)),
            None => None,
        }
    } else if macro_at(b, i) is Some {
        Some(
            (
                TokenKind::MacroOpen { kind: macro_kind(macro_at(b, i)->0) },
                macro_lit(macro_at(b, i)->0).len() as int,
            ),
        )
    } else {
        None
    }
}

/// `b[s..t]` equals the lowercase name `lit`, ignoring ASCII case.
pub open spec fn name_is(b: Seq<u8>, s: int, t: int, lit: Seq<u8>) -> bool {
    t - s == lit.len() && matches_at_ci(b, s, lit)
}

/// The link family of `[[inner]]`, where `inner` is `b[a..e]`: the part
/// before the first `|`, then before the first `:`, trimmed and compared
/// without regard to ASCII case.
pub open spec fn link_kind(b: Seq<u8>, a: int, e: int) -> LinkKind {
    let he = match first_byte(b, PIPE, a, e) {
        Some(p) => p,
        None => e,
    };
    let ne = match first_byte(b, COLON, a, he) {
        Some(p) => p,
        None => he,
    };
    let s = trimmed(b, a, ne).0;
    let t = trimmed(b, a, ne).1;
    if name_is(b, s, t, name_image()) {
        LinkKind::Image
    } else if name_is(b, s, t, name_video()) || name_is(b, s, t, name_v()) {
        LinkKind::Video
    } else if name_is(b, s, t, name_ui()) {
        LinkKind::Ui
    } else if name_is(b, s, t, name_template()) || name_is(b, s, t, name_t()) {
        LinkKind::Template
    } else if name_is(b, s, t, name_include()) || name_is(b, s, t, name_i()) {
        LinkKind::Include
    } else {
        LinkKind::Internal
    }
}

pub open spec fn is_ext_start(b: Seq<u8>, i: int) -> bool {
    matches_at_ci(b, i, lit_http()) || matches_at_ci(b, i, lit_https())
}

// ---------------------------------------------------------------------------
// The scan
// ---------------------------------------------------------------------------

/// Where the scan stands: the position, the start of the current line, the
/// start of pending text, and how many macro openers and labelled external
/// links are unclosed.
#[derive(Debug, Clone, Copy, PartialEq, Eq, Structural)]
pub struct LexState {
    pub i: usize,
    pub line_start: usize,
    pub text_from: usize,
    pub macro_depth: usize,
    pub ext_depth: usize,
}

/// Pending text `from..upto`, if any.
pub open spec fn flush(from: int, upto: int) -> Seq<Token> {
    if upto > from {
        seq![tok(TokenKind::Text, from, upto)]
    } else {
        Seq::empty()
    }
}

pub open spec fn moved(s: LexState, e: int) -> LexState {
    LexState {
        i: e as usize,
        line_start: s.line_start,
        text_from: e as usize,
        macro_depth: s.macro_depth,
        ext_depth: s.ext_depth,
    }
}

/// Flush pending text, emit `kind` for `i..e`, and continue at `e`.
pub open spec fn emit(s: LexState, kind: TokenKind, e: int) -> (Seq<Token>, LexState) {
    (flush(s.text_from as int, s.i as int) + seq![tok(kind, s.i as int, e)], moved(s, e))
}

/// Flush pending text, emit the indentation `i..start` as text and `kind`
/// for `start..e`, and continue at `e`.
pub open spec fn emit_indented(s: LexState, kind: TokenKind, start: int, e: int) -> (
    Seq<Token>,
    LexState,
) {
    (
        flush(s.text_from as int, s.i as int) + flush(s.i as int, start) + seq![
            tok(kind, start, e),
        ],
        moved(s, e),
    )
}

pub open spec fn line_emit(s: LexState, h: LineHit) -> (Seq<Token>, LexState) {
    match h {
        LineHit::Preformatted { end } => emit(
            s,
            TokenKind::Opaque { kind: Opaque::Preformatted },
            end as int,
        ),
        LineHit::Rule { start, end } => emit_indented(
            s,
            TokenKind::HorizontalRule,
            start as int,
            end as int,
        ),
        LineHit::Heading { start, level } => emit_indented(
            s,
            TokenKind::HeadingMarker { level: level },
            start as int,
            start + level,
        ),
        LineHit::List { start, len } => emit_indented(
            s,
            TokenKind::ListMarker,
            start as int,
            start + len,
        ),
    }
}

pub open spec fn with_depths(s: LexState, md: int, ed: int) -> LexState {
    LexState {
        i: s.i,
        line_start: s.line_start,
        text_from: s.text_from,
        macro_depth: md as usize,
        ext_depth: ed as usize,
    }
}

/// One step of the scan at `s.i`: the tokens it emits and the next state.
pub open spec fn lex_step(b: Seq<u8>, s: LexState) -> (Seq<Token>, LexState) {
    let i = s.i as int;
    let n = b.len() as int;
    if b[i] == LT && opaque_at(b, i) is Some {
        let k = opaque_at(b, i)->0;
        emit(s, TokenKind::Opaque { kind: opaque_kind(k) }, opaque_end(b, i, k))
    } else if b[i] == LT && html_tag_end(b, i) is Some {
        emit(s, TokenKind::HtmlTag, html_tag_end(b, i)->0)
    } else if i == s.line_start && line_hit(b, i) is Some {
        line_emit(s, line_hit(b, i)->0)
    } else if b[i] == EQ && in_heading_tail(b, i) {
        let run = run_len(b, EQ, i, n);
        emit(s, TokenKind::HeadingMarker { level: run as usize }, i + run)
    } else if b[i] == LBRACE && brace_hit(b, i) is Some {
        let kind = (brace_hit(b, i)->0).0;
        let len = (brace_hit(b, i)->0).1;
        let r = emit(s, kind, i + len);
        if kind is MacroOpen {
            (r.0, with_depths(r.1, s.macro_depth + 1, s.ext_depth as int))
        } else {
            r
        }
    } else if b[i] == RBRACE && s.macro_depth > 0 {
        let r = emit(s, TokenKind::MacroClose, i + 1);
        (r.0, with_depths(r.1, s.macro_depth - 1, s.ext_depth as int))
    } else if b[i] == LBRACKET && i + 1 < n && b[i + 1] == LBRACKET {
        match first_match(b, lit_close_link(), i) {
            Some(p) => emit(s, TokenKind::Link { kind: link_kind(b, i + 2, p) }, p + 2),
            None => emit(s, TokenKind::DanglingBracket { open: true }, i + 2),
        }
    } else if b[i] == RBRACKET && i + 1 < n && b[i + 1] == RBRACKET {
        emit(s, TokenKind::DanglingBracket { open: false }, i + 2)
    } else if b[i] == LBRACKET && is_ext_start(b, i) && first_byte(b, RBRACKET, i, n) is Some {
        let r = first_byte(b, RBRACKET, i, n)->0;
        match first_byte(b, SPACE, i, r) {
            Some(sp) => {
                let x = emit(s, TokenKind::ExternalLinkOpen, sp + 1);
                (x.0, with_depths(x.1, s.macro_depth as int, s.ext_depth + 1))
            },
            None => emit(s, TokenKind::ExternalLink, r + 1),
        }
    } else if b[i] == RBRACKET && s.ext_depth > 0 {
        let r = emit(s, TokenKind::ExternalLinkClose, i + 1);
        (r.0, with_depths(r.1, s.macro_depth as int, s.ext_depth - 1))
    } else if b[i] == QUOTE && run_len(b, QUOTE, i, n) >= 3 {
        emit(s, TokenKind::Bold, i + 3)
    } else if b[i] == QUOTE && run_len(b, QUOTE, i, n) == 2 {
        emit(s, TokenKind::Italic, i + 2)
    } else if matches_at(b, i, lit_toc()) {
        emit(s, TokenKind::Toc, i + 7)
    } else if b[i] == NL {
        let r = emit(s, TokenKind::Newline, i + 1);
        (
            r.0,
            LexState {
                i: r.1.i,
                line_start: (i + 1) as usize,
                text_from: r.1.text_from,
                macro_depth: r.1.macro_depth,
                ext_depth: r.1.ext_depth,
            },
        )
    } else {
        (
            Seq::empty(),
            LexState {
                i: (i + 1) as usize,
                line_start: s.line_start,
                text_from: s.text_from,
                macro_depth: s.macro_depth,
                ext_depth: s.ext_depth,
            },
        )
    }
}

/// The tokens of `b` from state `s` on.
pub open spec fn lex_from(b: Seq<u8>, s: LexState) -> Seq<Token>
    decreases b.len() - s.i,
{
    if s.i >= b.len() {
        flush(s.text_from as int, b.len() as int)
    } else {
        let r = lex_step(b, s);
        if s.i < r.1.i <= b.len() {
            r.0 + lex_from(b, r.1)
        } else {
            r.0
        }
    }
}

pub open spec fn start_state() -> LexState {
    LexState { i: 0, line_start: 0, text_from: 0, macro_depth: 0, ext_depth: 0 }
}

/// The tokens of the UTF-8 bytes `b`.
pub open spec fn lex_spec(b: Seq<u8>) -> Seq<Token> {
    lex_from(b, start_state())
}


// ---------------------------------------------------------------------------
// Facts about the recognisers
// ---------------------------------------------------------------------------

pub proof fn lemma_last_byte(b: Seq<u8>, c: u8, from: int, to: int)
    ensures
        last_byte(b, c, from, to) matches Some(p) ==> from <= p < to && b[p] == c,
    decreases to - from,
{
    if to > from && b[to - 1] != c {
        lemma_last_byte(b, c, from, to - 1);
    }
}

pub proof fn lemma_run_len_back(b: Seq<u8>, c: u8, start: int, q: int)
    requires
        0 <= start <= q <= b.len(),
    ensures
        0 <= run_len_back(b, c, start, q) <= q - start,
        forall|p: int| q - run_len_back(b, c, start, q) <= p < q ==> b[p] == c,
    decreases q - start,
{
    if start < q && b[q - 1] == c {
        lemma_run_len_back(b, c, start, q - 1);
    }
}

pub proof fn lemma_list_run(b: Seq<u8>, p: int, e: int)
    requires
        0 <= p <= e <= b.len(),
    ensures
        0 <= list_run(b, p, e) <= e - p,
        forall|q: int| p <= q < p + list_run(b, p, e) ==> b[q] == STAR || b[q] == HASH,
    decreases e - p,
{
    if p < e && (b[p] == STAR || b[p] == HASH) {
        lemma_list_run(b, p + 1, e);
    }
}

pub proof fn lemma_line_end(b: Seq<u8>, i: int)
    requires
        0 <= i <= b.len(),
    ensures
        i <= line_end(b, i) <= b.len(),
        line_end(b, i) < b.len() ==> b[line_end(b, i)] == NL,
        forall|q: int| i <= q < line_end(b, i) ==> b[q] != NL,
{
    lemma_first_byte(b, NL, i, b.len() as int);
}

pub proof fn lemma_heading_markers(b: Seq<u8>, i: int, e: int)
    requires
        0 <= i <= e <= b.len(),
    ensures
        heading_markers(b, i, e) matches Some((open, close)) ==> {
            let ts = trimmed(b, i, e).0;
            let te = trimmed(b, i, e).1;
            &&& 1 <= open
            &&& ts + open <= te - close
            &&& 0 <= close
            &&& forall|q: int| ts <= q < ts + open ==> b[q] == EQ
        },
{
    let ts = trimmed(b, i, e).0;
    let te = trimmed(b, i, e).1;
    lemma_skip_ws(b, i, e);
    lemma_skip_ws_back(b, ts, e);
    if te - ts >= 2 && b[ts] == EQ {
        lemma_run_len(b, EQ, ts, te);
        lemma_run_len_back(b, EQ, ts, te);
        let open = run_len(b, EQ, ts, te);
        let close = run_len_back(b, EQ, ts, te);
        if open < te - ts {
            if ts + open > te - close {
                assert(b[ts + open] == EQ);
            }
        }
    }
}

// ---------------------------------------------------------------------------
// Executable recognisers
// ---------------------------------------------------------------------------

fn line_end_exec(b: &[u8], i: usize) -> (r: usize)
    requires
        i <= b.len(),
    ensures
        r == line_end(b@, i as int),
        i <= r <= b.len(),
{
    proof {
        lemma_first_byte(b@, NL, i as int, b@.len() as int);
    }
    match find_byte(b, NL, i, b.len()) {
        Some(p) => p,
        None => b.len(),
    }
}

fn all_bytes_exec(b: &[u8], c: u8, a: usize, e: usize) -> (r: bool)
    requires
        a <= e <= b.len(),
    ensures
        r == all_bytes(b@, c, a as int, e as int),
{
    let mut k = a;
    while k < e
        invariant
            a <= k <= e <= b.len(),
            forall|q: int| a <= q < k ==> b@[q] == c,
        decreases e - k,
    {
        if b[k] != c {
            return false;
        }
        k += 1;
    }
    true
}

pub fn run_len_back_exec(b: &[u8], c: u8, start: usize, q: usize) -> (r: usize)
    requires
        start <= q <= b.len(),
    ensures
        r == run_len_back(b@, c, start as int, q as int),
{
    proof {
        lemma_run_len_back(b@, c, start as int, q as int);
    }
    let mut k = q;
    while k > start && b[k - 1] == c
        invariant
            start <= k <= q <= b.len(),
            run_len_back(b@, c, start as int, q as int) == (q - k) + run_len_back(
                b@,
                c,
                start as int,
                k as int,
            ),
        decreases k,
    {
        k -= 1;
    }
    q - k
}

fn last_byte_exec(b: &[u8], c: u8, from: usize, to: usize) -> (r: Option<usize>)
    requires
        from <= to <= b.len(),
    ensures
        r matches Some(p) ==> last_byte(b@, c, from as int, to as int) == Some(p as int),
        r is None ==> last_byte(b@, c, from as int, to as int) is None,
{
    let mut k = to;
    while k > from
        invariant
            from <= k <= to <= b.len(),
            last_byte(b@, c, from as int, to as int) == last_byte(b@, c, from as int, k as int),
        decreases k,
    {
        if b[k - 1] == c {
            return Some(k - 1);
        }
        k -= 1;
    }
    None
}

fn list_run_exec(b: &[u8], p: usize, e: usize) -> (r: usize)
    requires
        p <= e <= b.len(),
    ensures
        r == list_run(b@, p as int, e as int),
{
    proof {
        lemma_list_run(b@, p as int, e as int);
    }
    let mut k = p;
    while k < e && (b[k] == STAR || b[k] == HASH)
        invariant
            p <= k <= e <= b.len(),
            list_run(b@, p as int, e as int) == (k - p) + list_run(b@, k as int, e as int),
        decreases e - k,
    {
        k += 1;
    }
    k - p
}

fn opaque_at_exec(b: &[u8], i: usize) -> (r: Option<usize>)
    ensures
        r matches Some(k) ==> opaque_at(b@, i as int) == Some(k as int),
        r is None ==> opaque_at(b@, i as int) is None,
{
    let mut k: usize = 0;
    while k < 3
        invariant
            k <= 3,
            forall|j: int| 0 <= j < k ==> !matches_at_ci(b@, i as int, #[trigger] opaque_open(j)),
        decreases 3 - k,
    {
        let lit = opaque_open_lit(k);
        if bytes_match_at_ci(b, i, lit.as_slice()) {
            return Some(k);
        }
        k += 1;
    }
    None
}

fn opaque_end_exec(b: &[u8], i: usize, k: usize) -> (r: usize)
    requires
        opaque_at(b@, i as int) == Some(k as int),
    ensures
        r == opaque_end(b@, i as int, k as int),
        i < r <= b.len(),
{
    let open = opaque_open_lit(k);
    let close = opaque_close_lit(k);
    let body = i + open.len();
    proof {
        lemma_first_match_ci(b@, close@, body as int);
    }
    match find_lit_ci(b, close.as_slice(), body) {
        Some(p) => p + close.len(),
        None => b.len(),
    }
}

fn is_alpha_exec(c: u8) -> (r: bool)
    ensures
        r == is_alpha(c),
{
    (65 <= c && c <= 90) || (97 <= c && c <= 122)
}

fn html_tag_end_exec(b: &[u8], i: usize) -> (r: Option<usize>)
    requires
        i < b.len(),
    ensures
        r matches Some(e) ==> html_tag_end(b@, i as int) == Some(e as int) && i < e <= b.len()
            && b@[e - 1] == GT,
        r is None ==> html_tag_end(b@, i as int) is None,
{
    let r = i + 1;
    let body = if r < b.len() && b[r] == SLASH {
        r + 1
    } else {
        r
    };
    if !(body < b.len() && is_alpha_exec(b[body])) {
        return None;
    }
    proof {
        lemma_first_byte(b@, GT, r as int, b@.len() as int);
    }
    match find_byte(b, GT, r, b.len()) {
        None => None,
        Some(g) => {
            if find_byte(b, NL, r, g).is_some() || find_byte(b, LT, r, g).is_some() {
                None
            } else {
                Some(g + 1)
            }
        },
    }
}

fn heading_markers_exec(b: &[u8], i: usize, e: usize) -> (r: Option<(usize, usize)>)
    requires
        i <= e <= b.len(),
    ensures
        r matches Some((o, c)) ==> heading_markers(b@, i as int, e as int) == Some(
            (o as int, c as int),
        ),
        r is None ==> heading_markers(b@, i as int, e as int) is None,
{
    proof {
        lemma_heading_markers(b@, i as int, e as int);
    }
    let (ts, te) = trim_range(b, i, e);
    if !(te - ts >= 2 && b[ts] == EQ) {
        return None;
    }
    let open = count_run(b, EQ, ts, te);
    let close = run_len_back_exec(b, EQ, ts, te);
    if open == te - ts {
        return None;
    }
    proof {
        lemma_run_len(b@, EQ, ts as int, te as int);
        lemma_run_len_back(b@, EQ, ts as int, te as int);
        if ts + open > te - close {
            assert(b@[ts + open] == EQ);
        }
    }
    if find_byte(b, EQ, ts + open, te - close).is_some() {
        return None;
    }
    Some((open, close))
}

fn line_hit_exec(b: &[u8], i: usize) -> (r: Option<LineHit>)
    requires
        i <= b.len(),
    ensures
        r == line_hit(b@, i as int),
{
    let e = line_end_exec(b, i);
    let (ts, te) = trim_range(b, i, e);
    let start = ts;
    if i < e && b[i] == SPACE && ts < te {
        return Some(LineHit::Preformatted { end: e });
    }
    if te - ts >= 4 && all_bytes_exec(b, DASH, ts, te) {
        return Some(LineHit::Rule { start, end: e });
    }
    if let Some((open, _close)) = heading_markers_exec(b, i, e) {
        return Some(LineHit::Heading { start, level: open });
    }
    let m = list_run_exec(b, start, e);
    if m > 0 {
        return Some(LineHit::List { start, len: m });
    }
    if start < e && b[start] == SEMI {
        return Some(LineHit::List { start, len: 1 });
    }
    None
}

fn line_opens_before_exec(b: &[u8], i: usize) -> (r: bool)
    requires
        i <= b.len(),
    ensures
        r == line_opens_before(b@, i as int),
{
    proof {
        lemma_last_byte(b@, NL, 0, i as int);
    }
    let ls = match last_byte_exec(b, NL, 0, i) {
        Some(p) => p + 1,
        None => 0,
    };
    let p = skip_ws_exec(b, ls, i);
    p < i && b[p] == EQ && !all_bytes_exec(b, EQ, p, i)
}

fn in_heading_tail_exec(b: &[u8], i: usize) -> (r: bool)
    requires
        i <= b.len(),
    ensures
        r == in_heading_tail(b@, i as int),
{
    let e = line_end_exec(b, i);
    if !(i < e) {
        return false;
    }
    let q = skip_ws_back_exec(b, i, e);
    all_bytes_exec(b, EQ, i, q) && line_opens_before_exec(b, i)
}

fn macro_at_exec(b: &[u8], i: usize) -> (r: Option<usize>)
    ensures
        r matches Some(k) ==> macro_at(b@, i as int) == Some(k as int),
        r is None ==> macro_at(b@, i as int) is None,
{
    let mut k: usize = 0;
    while k < 5
        invariant
            k <= 5,
            forall|j: int| 0 <= j < k ==> !matches_at(b@, i as int, #[trigger] macro_lit(j)),
        decreases 5 - k,
    {
        let lit = macro_lit_exec(k);
        if bytes_match_at(b, i, lit.as_slice()) {
            return Some(k);
        }
        k += 1;
    }
    None
}

fn brace_hit_exec(b: &[u8], i: usize) -> (r: Option<(TokenKind, usize)>)
    requires
        i < b.len(),
    ensures
        r matches Some((kind, len)) ==> brace_hit(b@, i as int) == Some((kind, len as int))
            && 1 <= len && i + len <= b.len() && b@[i + len - 1] < 0x80,
        r is None ==> brace_hit(b@, i as int) is None,
{
    let close_for: [u8; 6] = [123, 47, 102, 111, 114, 125];
    let note: [u8; 6] = [123, 110, 111, 116, 101, 125];
    let warning: [u8; 9] = [123, 119, 97, 114, 110, 105, 110, 103, 125];
    let note_close: [u8; 7] = [123, 47, 110, 111, 116, 101, 125];
    let warning_close: [u8; 10] = [123, 47, 119, 97, 114, 110, 105, 110, 103, 125];
    let for_bare: [u8; 5] = [123, 102, 111, 114, 125];
    let for_cond: [u8; 5] = [123, 102, 111, 114, 32];
    assert(close_for@ == lit_for_close());
    assert(note@ == lit_note());
    assert(warning@ == lit_warning());
    assert(note_close@ == lit_note_close());
    assert(warning_close@ == lit_warning_close());
    assert(for_bare@ == lit_for_bare());
    assert(for_cond@ == lit_for_cond());
    if bytes_match_at(b, i, &close_for) {
        assert(b@[i + 5] == lit_for_close()[5]);
        Some((TokenKind::ForClose, 6))
    } else if bytes_match_at(b, i, &note) {
        assert(b@[i + 5] == lit_note()[5]);
        Some((TokenKind::BlockOpen { warning: false }, 6))
    } else if bytes_match_at(b, i, &warning) {
        assert(b@[i + 8] == lit_warning()[8]);
        Some((TokenKind::BlockOpen { warning: true }, 9))
    } else if bytes_match_at(b, i, &note_close) {
        assert(b@[i + 6] == lit_note_close()[6]);
        Some((TokenKind::BlockClose { warning: false }, 7))
    } else if bytes_match_at(b, i, &warning_close) {
        assert(b@[i + 9] == lit_warning_close()[9]);
        Some((TokenKind::BlockClose { warning: true }, 10))
    } else if bytes_match_at(b, i, &for_bare) || bytes_match_at(b, i, &for_cond) {
        proof {
            lemma_first_byte(b@, RBRACE, i as int, b@.len() as int);
        }
        match find_byte(b, RBRACE, i, b.len()) {
            Some(c) => Some((TokenKind::ForOpen, c - i + 1)),
            None => None,
        }
    } else {
        match macro_at_exec(b, i) {
            Some(k) => {
                let lit = macro_lit_exec(k);
                let kind = macro_kind_exec(k);
                assert(b@[i + lit@.len() - 1] == lit@[lit@.len() - 1]);
                Some((TokenKind::MacroOpen { kind }, lit.len()))
            },
            None => None,
        }
    }
}

fn name_is_exec(b: &[u8], s: usize, t: usize, lit: &[u8]) -> (r: bool)
    requires
        s <= t <= b.len(),
    ensures
        r == name_is(b@, s as int, t as int, lit@),
{
    t - s == lit.len() && bytes_match_at_ci(b, s, lit)
}

fn link_kind_exec(b: &[u8], a: usize, e: usize) -> (r: LinkKind)
    requires
        a <= e <= b.len(),
    ensures
        r == link_kind(b@, a as int, e as int),
{
    proof {
        lemma_first_byte(b@, PIPE, a as int, e as int);
    }
    let he = match find_byte(b, PIPE, a, e) {
        Some(p) => p,
        None => e,
    };
    proof {
        lemma_first_byte(b@, COLON, a as int, he as int);
    }
    let ne = match find_byte(b, COLON, a, he) {
        Some(p) => p,
        None => he,
    };
    let (s, t) = trim_range(b, a, ne);
    let image: [u8; 5] = [105, 109, 97, 103, 101];
    let video: [u8; 5] = [118, 105, 100, 101, 111];
    let v: [u8; 1] = [118];
    let ui: [u8; 2] = [117, 105];
    let template: [u8; 8] = [116, 101, 109, 112, 108, 97, 116, 101];
    let t1: [u8; 1] = [116];
    let incl: [u8; 7] = [105, 110, 99, 108, 117, 100, 101];
    let i1: [u8; 1] = [105];
    assert(image@ == name_image());
    assert(video@ == name_video());
    assert(v@ == name_v());
    assert(ui@ == name_ui());
    assert(template@ == name_template());
    assert(t1@ == name_t());
    assert(incl@ == name_include());
    assert(i1@ == name_i());
    if name_is_exec(b, s, t, &image) {
        LinkKind::Image
    } else if name_is_exec(b, s, t, &video) || name_is_exec(b, s, t, &v) {
        LinkKind::Video
    } else if name_is_exec(b, s, t, &ui) {
        LinkKind::Ui
    } else if name_is_exec(b, s, t, &template) || name_is_exec(b, s, t, &t1) {
        LinkKind::Template
    } else if name_is_exec(b, s, t, &incl) || name_is_exec(b, s, t, &i1) {
        LinkKind::Include
    } else {
        LinkKind::Internal
    }
}

fn is_ext_start_exec(b: &[u8], i: usize) -> (r: bool)
    ensures
        r == is_ext_start(b@, i as int),
{
    let http: [u8; 8] = [91, 104, 116, 116, 112, 58, 47, 47];
    let https: [u8; 9] = [91, 104, 116, 116, 112, 115, 58, 47, 47];
    assert(http@ == lit_http());
    assert(https@ == lit_https());
    bytes_match_at_ci(b, i, &http) || bytes_match_at_ci(b, i, &https)
}


// ---------------------------------------------------------------------------
// The executable scan
// ---------------------------------------------------------------------------

/// Bounds that hold of every state the scan reaches.
pub open spec fn state_ok(b: Seq<u8>, s: LexState) -> bool {
    &&& b.len() <= usize::MAX
    &&& s.text_from <= s.i <= b.len()
    &&& s.line_start <= s.i
    &&& s.macro_depth <= s.i
    &&& s.ext_depth <= s.i
}

fn push_flush(out: &mut Vec<Token>, from: usize, upto: usize)
    ensures
        final(out)@ == old(out)@ + flush(from as int, upto as int),
{
    if upto > from {
        out.push(Token { kind: TokenKind::Text, span: from..upto });
    }
    proof {
        if upto <= from {
            assert(final(out)@ =~= old(out)@ + flush(from as int, upto as int));
        } else {
            assert(final(out)@ =~= old(out)@ + flush(from as int, upto as int));
        }
    }
}

fn emit_exec(out: &mut Vec<Token>, s: LexState, kind: TokenKind, e: usize) -> (r: LexState)
    ensures
        final(out)@ == old(out)@ + emit(s, kind, e as int).0,
        r == emit(s, kind, e as int).1,
{
    push_flush(out, s.text_from, s.i);
    out.push(Token { kind, span: s.i..e });
    proof {
        assert(final(out)@ =~= old(out)@ + emit(s, kind, e as int).0);
    }
    LexState { i: e, line_start: s.line_start, text_from: e, macro_depth: s.macro_depth, ext_depth: s.ext_depth }
}

fn emit_indented_exec(
    out: &mut Vec<Token>,
    s: LexState,
    kind: TokenKind,
    start: usize,
    e: usize,
) -> (r: LexState)
    ensures
        final(out)@ == old(out)@ + emit_indented(s, kind, start as int, e as int).0,
        r == emit_indented(s, kind, start as int, e as int).1,
{
    push_flush(out, s.text_from, s.i);
    push_flush(out, s.i, start);
    out.push(Token { kind, span: start..e });
    proof {
        assert(final(out)@ =~= old(out)@ + emit_indented(s, kind, start as int, e as int).0);
    }
    LexState { i: e, line_start: s.line_start, text_from: e, macro_depth: s.macro_depth, ext_depth: s.ext_depth }
}

fn step(b: &[u8], s: LexState, out: &mut Vec<Token>) -> (r: LexState)
    requires
        state_ok(b@, s),
        s.i < b.len(),
    ensures
        final(out)@ == old(out)@ + lex_step(b@, s).0,
        r == lex_step(b@, s).1,
{
    let i = s.i;
    let n = b.len();
    let c = b[i];
    if c == LT {
        if let Some(k) = opaque_at_exec(b, i) {
            let e = opaque_end_exec(b, i, k);
            let kind = if k == 0 {
                Opaque::Comment
            } else if k == 1 {
                Opaque::Nowiki
            } else {
                Opaque::Pre
            };
            return emit_exec(out, s, TokenKind::Opaque { kind }, e);
        }
        if let Some(e) = html_tag_end_exec(b, i) {
            return emit_exec(out, s, TokenKind::HtmlTag, e);
        }
    }
    if i == s.line_start {
        if let Some(h) = line_hit_exec(b, i) {
            return match h {
                LineHit::Preformatted { end } => emit_exec(
                    out,
                    s,
                    TokenKind::Opaque { kind: Opaque::Preformatted },
                    end,
                ),
                LineHit::Rule { start, end } => emit_indented_exec(
                    out,
                    s,
                    TokenKind::HorizontalRule,
                    start,
                    end,
                ),
                LineHit::Heading { start, level } => {
                    proof {
                        lemma_line_hit_bounds(b@, i as int);
                    }
                    emit_indented_exec(
                        out,
                        s,
                        TokenKind::HeadingMarker { level },
                        start,
                        start + level,
                    )
                },
                LineHit::List { start, len } => {
                    proof {
                        lemma_line_hit_bounds(b@, i as int);
                    }
                    emit_indented_exec(out, s, TokenKind::ListMarker, start, start + len)
                },
            };
        }
    }
    if c == EQ && in_heading_tail_exec(b, i) {
        let run = count_run(b, EQ, i, n);
        return emit_exec(out, s, TokenKind::HeadingMarker { level: run }, i + run);
    }
    if c == LBRACE {
        if let Some((kind, len)) = brace_hit_exec(b, i) {
            let r = emit_exec(out, s, kind, i + len);
            if let TokenKind::MacroOpen { .. } = kind {
                return LexState {
                    i: r.i,
                    line_start: r.line_start,
                    text_from: r.text_from,
                    macro_depth: s.macro_depth + 1,
                    ext_depth: s.ext_depth,
                };
            }
            return r;
        }
    }
    if c == RBRACE && s.macro_depth > 0 {
        let r = emit_exec(out, s, TokenKind::MacroClose, i + 1);
        return LexState {
            i: r.i,
            line_start: r.line_start,
            text_from: r.text_from,
            macro_depth: s.macro_depth - 1,
            ext_depth: s.ext_depth,
        };
    }
    if c == LBRACKET && i + 1 < n && b[i + 1] == LBRACKET {
        let close: [u8; 2] = [93, 93];
        assert(close@ == lit_close_link());
        proof {
            lemma_first_match(b@, lit_close_link(), i as int);
        }
        return match find_lit(b, &close, i) {
            Some(p) => {
                let kind = link_kind_exec(b, i + 2, p);
                emit_exec(out, s, TokenKind::Link { kind }, p + 2)
            },
            None => emit_exec(out, s, TokenKind::DanglingBracket { open: true }, i + 2),
        };
    }
    if c == RBRACKET && i + 1 < n && b[i + 1] == RBRACKET {
        return emit_exec(out, s, TokenKind::DanglingBracket { open: false }, i + 2);
    }
    if c == LBRACKET && is_ext_start_exec(b, i) {
        proof {
            lemma_first_byte(b@, RBRACKET, i as int, n as int);
        }
        if let Some(r) = find_byte(b, RBRACKET, i, n) {
            proof {
                lemma_first_byte(b@, SPACE, i as int, r as int);
            }
            return match find_byte(b, SPACE, i, r) {
                Some(sp) => {
                    let x = emit_exec(out, s, TokenKind::ExternalLinkOpen, sp + 1);
                    LexState {
                        i: x.i,
                        line_start: x.line_start,
                        text_from: x.text_from,
                        macro_depth: s.macro_depth,
                        ext_depth: s.ext_depth + 1,
                    }
                },
                None => emit_exec(out, s, TokenKind::ExternalLink, r + 1),
            };
        }
    }
    if c == RBRACKET && s.ext_depth > 0 {
        let r = emit_exec(out, s, TokenKind::ExternalLinkClose, i + 1);
        return LexState {
            i: r.i,
            line_start: r.line_start,
            text_from: r.text_from,
            macro_depth: s.macro_depth,
            ext_depth: s.ext_depth - 1,
        };
    }
    if c == QUOTE {
        let run = count_run(b, QUOTE, i, n);
        if run >= 3 {
            return emit_exec(out, s, TokenKind::Bold, i + 3);
        }
        if run == 2 {
            return emit_exec(out, s, TokenKind::Italic, i + 2);
        }
    }
    let toc: [u8; 7] = [95, 95, 84, 79, 67, 95, 95];
    assert(toc@ == lit_toc());
    if bytes_match_at(b, i, &toc) {
        return emit_exec(out, s, TokenKind::Toc, i + 7);
    }
    if c == NL {
        let r = emit_exec(out, s, TokenKind::Newline, i + 1);
        return LexState {
            i: r.i,
            line_start: i + 1,
            text_from: r.text_from,
            macro_depth: r.macro_depth,
            ext_depth: r.ext_depth,
        };
    }
    LexState {
        i: i + 1,
        line_start: s.line_start,
        text_from: s.text_from,
        macro_depth: s.macro_depth,
        ext_depth: s.ext_depth,
    }
}

/// Tokenise `input`. The result always tiles `input` exactly.
pub fn lex(input: &str) -> (out: Vec<Token>)
    ensures
        out@ == lex_spec(input.spec_bytes()),
{
    let b = input.as_bytes();
    let mut out: Vec<Token> = Vec::new();
    let mut s = initial_state();
    let n = b.len();
    assert(b@.len() == n);
    while s.i < b.len()
        invariant
            state_ok(b@, s),
            out@ + lex_from(b@, s) == lex_spec(b@),
        decreases b.len() - s.i,
    {
        proof {
            lemma_step_progress(b@, s);
        }
        let ghost old_out = out@;
        let s2 = step(b, s, &mut out);
        proof {
            assert(lex_from(b@, s) == lex_step(b@, s).0 + lex_from(b@, s2));
            assert(out@ + lex_from(b@, s2) =~= old_out + lex_from(b@, s));
        }
        s = s2;
    }
    push_flush(&mut out, s.text_from, b.len());
    proof {
        assert(lex_from(b@, s) == flush(s.text_from as int, b@.len() as int));
    }
    out
}

fn initial_state() -> (r: LexState)
    ensures
        r == start_state(),
{
    LexState { i: 0, line_start: 0, text_from: 0, macro_depth: 0, ext_depth: 0 }
}


// ---------------------------------------------------------------------------
// Progress and tiling of one step
// ---------------------------------------------------------------------------

pub proof fn lemma_line_hit_bounds(b: Seq<u8>, i: int)
    requires
        0 <= i <= b.len(),
        b.len() <= usize::MAX,
    ensures
        line_hit(b, i) matches Some(h) ==> {
            let e = line_end(b, i);
            match h {
                LineHit::Preformatted { end } => i < end && end == e,
                LineHit::Rule { start, end } => i <= start <= end && end == e && start
                    == skip_ws(b, i, e),
                LineHit::Heading { start, level } => 1 <= level && i <= start && start + level
                    <= e && start == skip_ws(b, i, e) && b[start + level - 1] == EQ,
                LineHit::List { start, len } => 1 <= len && i <= start && start + len <= e
                    && start == skip_ws(b, i, e) && (b[start + len - 1] == STAR || b[start + len
                    - 1] == HASH || b[start + len - 1] == SEMI),
            }
        },
        line_end(b, i) <= b.len(),
{
    let e = line_end(b, i);
    lemma_line_end(b, i);
    lemma_skip_ws(b, i, e);
    let ts = skip_ws(b, i, e);
    lemma_skip_ws_back(b, ts, e);
    lemma_heading_markers(b, i, e);
    lemma_list_run(b, ts, e);
    if let Some((open, close)) = heading_markers(b, i, e) {
        assert(b[ts + open - 1] == EQ);
        assert(ts + open <= e);
    }
    let m = list_run(b, ts, e);
    if m > 0 {
        assert(b[ts + m - 1] == STAR || b[ts + m - 1] == HASH);
    }
    assert(ts == trimmed(b, i, e).0);
    if let Some(h) = line_hit(b, i) {
        match h {
            LineHit::Preformatted { end } => {},
            LineHit::Rule { start, end } => {},
            LineHit::Heading { start, level } => {
                assert(level == (heading_markers(b, i, e)->0).0);
            },
            LineHit::List { start, len } => {},
        }
    }
}

pub proof fn lemma_brace_hit(b: Seq<u8>, i: int)
    requires
        0 <= i < b.len(),
    ensures
        brace_hit(b, i) matches Some((kind, len)) ==> 1 <= len && i + len <= b.len() && b[i
            + len - 1] < 0x80,
{
    lemma_first_byte(b, RBRACE, i, b.len() as int);
    if matches_at(b, i, lit_for_close()) {
        assert(b[i + 5] == lit_for_close()[5]);
    } else if matches_at(b, i, lit_note()) {
        assert(b[i + 5] == lit_note()[5]);
    } else if matches_at(b, i, lit_warning()) {
        assert(b[i + 8] == lit_warning()[8]);
    } else if matches_at(b, i, lit_note_close()) {
        assert(b[i + 6] == lit_note_close()[6]);
    } else if matches_at(b, i, lit_warning_close()) {
        assert(b[i + 9] == lit_warning_close()[9]);
    } else if matches_at(b, i, lit_for_bare()) || matches_at(b, i, lit_for_cond()) {
    } else if let Some(k) = macro_at(b, i) {
        let lit = macro_lit(k);
        assert(b[i + lit.len() - 1] == lit[lit.len() - 1]);
    }
}

pub proof fn lemma_opaque_end(b: Seq<u8>, i: int)
    requires
        0 <= i < b.len(),
        opaque_at(b, i) is Some,
    ensures
        i < opaque_end(b, i, opaque_at(b, i)->0) <= b.len(),
        opaque_end(b, i, opaque_at(b, i)->0) == b.len() || b[opaque_end(
            b,
            i,
            opaque_at(b, i)->0,
        ) - 1] == GT,
{
    let k = opaque_at(b, i)->0;
    let close = opaque_close(k);
    let from = i + opaque_open(k).len();
    lemma_first_match_ci(b, close, from);
    if let Some(p) = first_match_ci(b, close, from) {
        assert(lower(b[p + close.len() - 1]) == lower(close[close.len() - 1]));
    }
}

pub proof fn lemma_html_tag_end(b: Seq<u8>, i: int)
    requires
        0 <= i < b.len(),
    ensures
        html_tag_end(b, i) matches Some(e) ==> i + 1 < e <= b.len() && b[e - 1] == GT,
{
    lemma_first_byte(b, GT, i + 1, b.len() as int);
}

pub proof fn lemma_emit_tiles(s: LexState, kind: TokenKind, e: int)
    requires
        s.text_from <= s.i <= e,
        e <= usize::MAX,
    ensures
        tiles_from(emit(s, kind, e).0, s.text_from as int, e),
{
    let ts = emit(s, kind, e).0;
    let t = tok(kind, s.i as int, e);
    assert(tiles_from(seq![t].drop_first(), e, e));
    assert(tiles_from(seq![t], s.i as int, e));
    if s.i > s.text_from {
        assert(ts.drop_first() =~= seq![t]);
    } else {
        assert(ts =~= seq![t]);
    }
}

pub proof fn lemma_emit_indented_tiles(s: LexState, kind: TokenKind, start: int, e: int)
    requires
        s.text_from <= s.i <= start <= e,
        e <= usize::MAX,
    ensures
        tiles_from(emit_indented(s, kind, start, e).0, s.text_from as int, e),
{
    let t = tok(kind, start, e);
    assert(tiles_from(seq![t].drop_first(), e, e));
    assert(tiles_from(seq![t], start, e));
    let tail = flush(s.i as int, start) + seq![t];
    if start > s.i {
        assert(tail.drop_first() =~= seq![t]);
    } else {
        assert(tail =~= seq![t]);
    }
    assert(tiles_from(tail, s.i as int, e));
    let ts = emit_indented(s, kind, start, e).0;
    assert(ts =~= flush(s.text_from as int, s.i as int) + tail);
    if s.i > s.text_from {
        assert(ts.drop_first() =~= tail);
    } else {
        assert(ts =~= tail);
    }
}

/// One step moves forward, stays within the input, keeps the state's
/// bounds, and emits tokens tiling `text_from` up to the new `text_from`.
#[verifier::rlimit(60)]
pub proof fn lemma_step_progress(b: Seq<u8>, s: LexState)
    requires
        state_ok(b, s),
        s.i < b.len(),
    ensures
        s.i < lex_step(b, s).1.i <= b.len(),
        state_ok(b, lex_step(b, s).1),
        tiles_from(lex_step(b, s).0, s.text_from as int, lex_step(b, s).1.text_from as int),
{
    let i = s.i as int;
    let n = b.len() as int;
    if b[i] == LT && opaque_at(b, i) is Some {
        lemma_opaque_end(b, i);
        lemma_emit_tiles(
            s,
            TokenKind::Opaque { kind: opaque_kind(opaque_at(b, i)->0) },
            opaque_end(b, i, opaque_at(b, i)->0),
        );
    } else if b[i] == LT && html_tag_end(b, i) is Some {
        lemma_html_tag_end(b, i);
        lemma_emit_tiles(s, TokenKind::HtmlTag, html_tag_end(b, i)->0);
    } else if i == s.line_start && line_hit(b, i) is Some {
        lemma_line_hit_bounds(b, i);
        lemma_step_line(b, s);
    } else if b[i] == EQ && in_heading_tail(b, i) {
        lemma_run_len(b, EQ, i, n);
        let run = run_len(b, EQ, i, n);
        lemma_emit_tiles(s, TokenKind::HeadingMarker { level: run as usize }, i + run);
    } else if b[i] == LBRACE && brace_hit(b, i) is Some {
        lemma_brace_hit(b, i);
        let kind = (brace_hit(b, i)->0).0;
        let len = (brace_hit(b, i)->0).1;
        lemma_emit_tiles(s, kind, i + len);
    } else if b[i] == RBRACE && s.macro_depth > 0 {
        lemma_emit_tiles(s, TokenKind::MacroClose, i + 1);
    } else if b[i] == LBRACKET && i + 1 < n && b[i + 1] == LBRACKET {
        lemma_first_match(b, lit_close_link(), i);
        match first_match(b, lit_close_link(), i) {
            Some(p) => {
                lemma_emit_tiles(s, TokenKind::Link { kind: link_kind(b, i + 2, p) }, p + 2);
            },
            None => {
                lemma_emit_tiles(s, TokenKind::DanglingBracket { open: true }, i + 2);
            },
        }
    } else if b[i] == RBRACKET && i + 1 < n && b[i + 1] == RBRACKET {
        lemma_emit_tiles(s, TokenKind::DanglingBracket { open: false }, i + 2);
    } else if b[i] == LBRACKET && is_ext_start(b, i) && first_byte(b, RBRACKET, i, n) is Some {
        lemma_first_byte(b, RBRACKET, i, n);
        let r = first_byte(b, RBRACKET, i, n)->0;
        lemma_first_byte(b, SPACE, i, r);
        match first_byte(b, SPACE, i, r) {
            Some(sp) => {
                lemma_emit_tiles(s, TokenKind::ExternalLinkOpen, sp + 1);
            },
            None => {
                lemma_emit_tiles(s, TokenKind::ExternalLink, r + 1);
            },
        }
    } else if b[i] == RBRACKET && s.ext_depth > 0 {
        lemma_emit_tiles(s, TokenKind::ExternalLinkClose, i + 1);
    } else if b[i] == QUOTE && run_len(b, QUOTE, i, n) >= 3 {
        lemma_run_len(b, QUOTE, i, n);
        lemma_emit_tiles(s, TokenKind::Bold, i + 3);
    } else if b[i] == QUOTE && run_len(b, QUOTE, i, n) == 2 {
        lemma_run_len(b, QUOTE, i, n);
        lemma_emit_tiles(s, TokenKind::Italic, i + 2);
    } else if matches_at(b, i, lit_toc()) {
        lemma_emit_tiles(s, TokenKind::Toc, i + 7);
    } else if b[i] == NL {
        lemma_emit_tiles(s, TokenKind::Newline, i + 1);
    } else {
        assert(tiles_from(Seq::<Token>::empty(), s.text_from as int, s.text_from as int));
    }
}

proof fn lemma_step_line(b: Seq<u8>, s: LexState)
    requires
        state_ok(b, s),
        s.i < b.len(),
        s.i == s.line_start,
        line_hit(b, s.i as int) is Some,
        line_hit(b, s.i as int) matches Some(h) ==> {
            let e = line_end(b, s.i as int);
            let i = s.i as int;
            match h {
                LineHit::Preformatted { end } => i < end && end == e,
                LineHit::Rule { start, end } => i <= start <= end && end == e,
                LineHit::Heading { start, level } => 1 <= level && i <= start && start + level
                    <= e,
                LineHit::List { start, len } => 1 <= len && i <= start && start + len <= e,
            }
        },
        line_end(b, s.i as int) <= b.len(),
    ensures
        s.i < line_emit(s, line_hit(b, s.i as int)->0).1.i <= b.len(),
        state_ok(b, line_emit(s, line_hit(b, s.i as int)->0).1),
        tiles_from(
            line_emit(s, line_hit(b, s.i as int)->0).0,
            s.text_from as int,
            line_emit(s, line_hit(b, s.i as int)->0).1.text_from as int,
        ),
{
    match line_hit(b, s.i as int)->0 {
        LineHit::Preformatted { end } => {
            lemma_emit_tiles(s, TokenKind::Opaque { kind: Opaque::Preformatted }, end as int);
        },
        LineHit::Rule { start, end } => {
            lemma_emit_indented_tiles(s, TokenKind::HorizontalRule, start as int, end as int);
        },
        LineHit::Heading { start, level } => {
            lemma_emit_indented_tiles(
                s,
                TokenKind::HeadingMarker { level: level },
                start as int,
                start + level,
            );
        },
        LineHit::List { start, len } => {
            lemma_emit_indented_tiles(s, TokenKind::ListMarker, start as int, start + len);
        },
    }
}


// ---------------------------------------------------------------------------
// Laws of the lexer
// ---------------------------------------------------------------------------

proof fn lemma_flush_tiles(from: int, upto: int)
    requires
        0 <= from <= upto <= usize::MAX,
    ensures
        tiles_from(flush(from, upto), from, upto),
{
    if upto > from {
        let t = tok(TokenKind::Text, from, upto);
        assert(flush(from, upto).drop_first() =~= Seq::<Token>::empty());
        assert(tiles_from(Seq::<Token>::empty(), upto, upto));
        assert(flush(from, upto)[0] == t);
    }
}

pub proof fn lemma_lex_from_tiles(b: Seq<u8>, s: LexState)
    requires
        state_ok(b, s),
    ensures
        tiles_from(lex_from(b, s), s.text_from as int, b.len() as int),
    decreases b.len() - s.i,
{
    if s.i >= b.len() {
        lemma_flush_tiles(s.text_from as int, b.len() as int);
    } else {
        lemma_step_progress(b, s);
        let r = lex_step(b, s);
        lemma_lex_from_tiles(b, r.1);
        lemma_tiles_concat(r.0, lex_from(b, r.1), s.text_from as int, r.1.text_from as int, b.len() as int);
    }
}

/// **Losslessness.** The tokens of any input tile it exactly: contiguous
/// spans from 0 to its length.
pub proof fn lemma_lex_tiles(b: Seq<u8>)
    requires
        b.len() <= usize::MAX,
    ensures
        tiles_from(lex_spec(b), 0, b.len() as int),
{
    lemma_lex_from_tiles(b, start_state());
}

/// Every token's span lies on character boundaries of `b`.
pub open spec fn spans_ok(b: Seq<u8>, ts: Seq<Token>) -> bool {
    forall|k: int| 0 <= k < ts.len() ==> #[trigger] slice_ok(b, ts[k].span.start as int, ts[k].span.end as int)
}

proof fn lemma_spans_ok_concat(b: Seq<u8>, xs: Seq<Token>, ys: Seq<Token>)
    requires
        spans_ok(b, xs),
        spans_ok(b, ys),
    ensures
        spans_ok(b, xs + ys),
{
    assert forall|k: int| 0 <= k < (xs + ys).len() implies #[trigger] slice_ok(b, (xs + ys)[k].span.start as int, (xs + ys)[k].span.end as int) by {
        if k < xs.len() {
            assert((xs + ys)[k] == xs[k]);
            assert(slice_ok(b, xs[k].span.start as int, xs[k].span.end as int));
        } else {
            assert((xs + ys)[k] == ys[k - xs.len()]);
            assert(slice_ok(b, ys[k - xs.len()].span.start as int, ys[k - xs.len()].span.end as int));
        }
    }
}

proof fn lemma_emit_spans(b: Seq<u8>, s: LexState, kind: TokenKind, e: int)
    requires
        s.text_from <= s.i <= e <= b.len() <= usize::MAX,
        is_char_boundary(b, s.text_from as int),
        is_char_boundary(b, s.i as int),
        is_char_boundary(b, e),
    ensures
        spans_ok(b, emit(s, kind, e).0),
{
    let ts = emit(s, kind, e).0;
    assert forall|k: int| 0 <= k < ts.len() implies #[trigger] slice_ok(b, ts[k].span.start as int, ts[k].span.end as int) by {
        if s.i > s.text_from && k == 0 {
        } else {
        }
    }
}

proof fn lemma_emit_indented_spans(b: Seq<u8>, s: LexState, kind: TokenKind, start: int, e: int)
    requires
        s.text_from <= s.i <= start <= e <= b.len() <= usize::MAX,
        is_char_boundary(b, s.text_from as int),
        is_char_boundary(b, s.i as int),
        is_char_boundary(b, start),
        is_char_boundary(b, e),
    ensures
        spans_ok(b, emit_indented(s, kind, start, e).0),
{
    let ts = emit_indented(s, kind, start, e).0;
    assert forall|k: int| 0 <= k < ts.len() implies #[trigger] slice_ok(b, ts[k].span.start as int, ts[k].span.end as int) by {
    }
}

/// Where a line construct's pieces begin and end are character boundaries.
proof fn lemma_step_line_spans(b: Seq<u8>, s: LexState)
    requires
        valid_utf8(b),
        state_ok(b, s),
        s.i < b.len(),
        s.i == s.line_start,
        line_hit(b, s.i as int) is Some,
        is_char_boundary(b, s.text_from as int),
        is_char_boundary(b, s.i as int),
    ensures
        spans_ok(b, line_emit(s, line_hit(b, s.i as int)->0).0),
        is_char_boundary(b, line_emit(s, line_hit(b, s.i as int)->0).1.text_from as int),
{
    let i = s.i as int;
    let e = line_end(b, i);
    lemma_line_hit_bounds(b, i);
    lemma_line_end(b, i);
    if e < b.len() {
        lemma_boundary_ascii(b, e);
    } else {
        lemma_boundary_ends(b);
    }
    lemma_skip_ws_boundary(b, i, e);
    match line_hit(b, i)->0 {
        LineHit::Preformatted { end } => {
            lemma_emit_spans(b, s, TokenKind::Opaque { kind: Opaque::Preformatted }, end as int);
        },
        LineHit::Rule { start, end } => {
            lemma_emit_indented_spans(b, s, TokenKind::HorizontalRule, start as int, end as int);
        },
        LineHit::Heading { start, level } => {
            lemma_boundary_after_ascii(b, start + level);
            lemma_emit_indented_spans(b, s, TokenKind::HeadingMarker { level: level }, start as int, start + level);
        },
        LineHit::List { start, len } => {
            lemma_boundary_after_ascii(b, start + len);
            lemma_emit_indented_spans(b, s, TokenKind::ListMarker, start as int, start + len);
        },
    }
}

/// One step emits tokens on character boundaries, given that pending text
/// and the current line start on boundaries.
#[verifier::rlimit(60)]
proof fn lemma_step_spans(b: Seq<u8>, s: LexState)
    requires
        valid_utf8(b),
        state_ok(b, s),
        s.i < b.len(),
        is_char_boundary(b, s.text_from as int),
        is_char_boundary(b, s.line_start as int),
    ensures
        spans_ok(b, lex_step(b, s).0),
        is_char_boundary(b, lex_step(b, s).1.text_from as int),
        is_char_boundary(b, lex_step(b, s).1.line_start as int),
{
    let i = s.i as int;
    let n = b.len() as int;
    lemma_step_progress(b, s);
    if b[i] < 0x80 {
        lemma_boundary_ascii(b, i);
    }
    if b[i] == LT && opaque_at(b, i) is Some {
        lemma_opaque_end(b, i);
        let e = opaque_end(b, i, opaque_at(b, i)->0);
        if e == n {
            lemma_boundary_ends(b);
        } else {
            lemma_boundary_after_ascii(b, e);
        }
        lemma_emit_spans(b, s, TokenKind::Opaque { kind: opaque_kind(opaque_at(b, i)->0) }, e);
    } else if b[i] == LT && html_tag_end(b, i) is Some {
        lemma_html_tag_end(b, i);
        lemma_boundary_after_ascii(b, html_tag_end(b, i)->0);
        lemma_emit_spans(b, s, TokenKind::HtmlTag, html_tag_end(b, i)->0);
    } else if i == s.line_start && line_hit(b, i) is Some {
        lemma_step_line_spans(b, s);
    } else if b[i] == EQ && in_heading_tail(b, i) {
        lemma_run_len(b, EQ, i, n);
        let run = run_len(b, EQ, i, n);
        assert(b[i + run - 1] == EQ);
        lemma_boundary_after_ascii(b, i + run);
        lemma_emit_spans(b, s, TokenKind::HeadingMarker { level: run as usize }, i + run);
    } else if b[i] == LBRACE && brace_hit(b, i) is Some {
        lemma_brace_hit(b, i);
        let kind = (brace_hit(b, i)->0).0;
        let len = (brace_hit(b, i)->0).1;
        lemma_boundary_after_ascii(b, i + len);
        lemma_emit_spans(b, s, kind, i + len);
    } else if b[i] == RBRACE && s.macro_depth > 0 {
        lemma_boundary_after_ascii(b, i + 1);
        lemma_emit_spans(b, s, TokenKind::MacroClose, i + 1);
    } else if b[i] == LBRACKET && i + 1 < n && b[i + 1] == LBRACKET {
        lemma_first_match(b, lit_close_link(), i);
        match first_match(b, lit_close_link(), i) {
            Some(p) => {
                assert(b[p + 1] == lit_close_link()[1]);
                lemma_boundary_after_ascii(b, p + 2);
                lemma_emit_spans(b, s, TokenKind::Link { kind: link_kind(b, i + 2, p) }, p + 2);
            },
            None => {
                lemma_boundary_after_ascii(b, i + 2);
                lemma_emit_spans(b, s, TokenKind::DanglingBracket { open: true }, i + 2);
            },
        }
    } else if b[i] == RBRACKET && i + 1 < n && b[i + 1] == RBRACKET {
        lemma_boundary_after_ascii(b, i + 2);
        lemma_emit_spans(b, s, TokenKind::DanglingBracket { open: false }, i + 2);
    } else if b[i] == LBRACKET && is_ext_start(b, i) && first_byte(b, RBRACKET, i, n) is Some {
        lemma_first_byte(b, RBRACKET, i, n);
        let r = first_byte(b, RBRACKET, i, n)->0;
        lemma_first_byte(b, SPACE, i, r);
        match first_byte(b, SPACE, i, r) {
            Some(sp) => {
                lemma_boundary_after_ascii(b, sp + 1);
                lemma_emit_spans(b, s, TokenKind::ExternalLinkOpen, sp + 1);
            },
            None => {
                lemma_boundary_after_ascii(b, r + 1);
                lemma_emit_spans(b, s, TokenKind::ExternalLink, r + 1);
            },
        }
    } else if b[i] == RBRACKET && s.ext_depth > 0 {
        lemma_boundary_after_ascii(b, i + 1);
        lemma_emit_spans(b, s, TokenKind::ExternalLinkClose, i + 1);
    } else if b[i] == QUOTE && run_len(b, QUOTE, i, n) >= 3 {
        lemma_run_len(b, QUOTE, i, n);
        assert(b[i + 2] == QUOTE);
        lemma_boundary_after_ascii(b, i + 3);
        lemma_emit_spans(b, s, TokenKind::Bold, i + 3);
    } else if b[i] == QUOTE && run_len(b, QUOTE, i, n) == 2 {
        lemma_run_len(b, QUOTE, i, n);
        assert(b[i + 1] == QUOTE);
        lemma_boundary_after_ascii(b, i + 2);
        lemma_emit_spans(b, s, TokenKind::Italic, i + 2);
    } else if matches_at(b, i, lit_toc()) {
        assert(b[i + 6] == lit_toc()[6]);
        lemma_boundary_after_ascii(b, i + 7);
        lemma_emit_spans(b, s, TokenKind::Toc, i + 7);
    } else if b[i] == NL {
        lemma_boundary_after_ascii(b, i + 1);
        lemma_emit_spans(b, s, TokenKind::Newline, i + 1);
    } else {
        assert(lex_step(b, s).0 =~= Seq::<Token>::empty());
    }
}

pub proof fn lemma_lex_from_spans(b: Seq<u8>, s: LexState)
    requires
        valid_utf8(b),
        state_ok(b, s),
        is_char_boundary(b, s.text_from as int),
        is_char_boundary(b, s.line_start as int),
    ensures
        spans_ok(b, lex_from(b, s)),
    decreases b.len() - s.i,
{
    if s.i >= b.len() {
        lemma_boundary_ends(b);
        let f = flush(s.text_from as int, b.len() as int);
        assert forall|k: int| 0 <= k < f.len() implies #[trigger] slice_ok(b, f[k].span.start as int, f[k].span.end as int) by {}
    } else {
        lemma_step_progress(b, s);
        lemma_step_spans(b, s);
        let r = lex_step(b, s);
        lemma_lex_from_spans(b, r.1);
        lemma_spans_ok_concat(b, r.0, lex_from(b, r.1));
    }
}

/// Every token of a UTF-8 text starts and ends on a character boundary, so
/// [`Token::text`] can always slice it out.
pub proof fn lemma_lex_boundaries(b: Seq<u8>)
    requires
        valid_utf8(b),
        b.len() <= usize::MAX,
    ensures
        spans_ok(b, lex_spec(b)),
{
    lemma_boundary_ends(b);
    lemma_lex_from_spans(b, start_state());
}

/// In a tiling, an earlier token ends no later than a later one starts.
pub proof fn lemma_tiles_order(ts: Seq<Token>, at: int, len: int, i: int, j: int)
    requires
        tiles_from(ts, at, len),
        0 <= i < j < ts.len(),
    ensures
        ts[i].span.end <= ts[j].span.start,
        ts[j].span.end <= len,
    decreases j - i,
{
    lemma_tiles_index(ts, at, len);
    if j == i + 1 {
    } else {
        lemma_tiles_order(ts, at, len, i, j - 1);
    }
    lemma_tiles_end(ts, at, len, j);
}

pub proof fn lemma_tiles_end(ts: Seq<Token>, at: int, len: int, j: int)
    requires
        tiles_from(ts, at, len),
        0 <= j < ts.len(),
    ensures
        ts[j].span.end <= len,
    decreases ts.len() - j,
{
    lemma_tiles_index(ts, at, len);
    if j < ts.len() - 1 {
        lemma_tiles_end(ts, at, len, j + 1);
    }
}

// ---------------------------------------------------------------------------
// Heading markers are runs of `=`
// ---------------------------------------------------------------------------

/// A heading-marker token covers exactly `level` bytes, all `=`, and at
/// least one.
pub open spec fn marker_bytes(b: Seq<u8>, t: Token) -> bool {
    match t.kind {
        TokenKind::HeadingMarker { level } => {
            &&& 1 <= level
            &&& t.span.start + level == t.span.end
            &&& forall|q: int| t.span.start <= q < t.span.end ==> b[q] == EQ
        },
        _ => true,
    }
}

pub open spec fn markers_ok(b: Seq<u8>, ts: Seq<Token>) -> bool {
    forall|k: int| 0 <= k < ts.len() ==> #[trigger] marker_bytes(b, ts[k])
}

proof fn lemma_markers_concat(b: Seq<u8>, xs: Seq<Token>, ys: Seq<Token>)
    requires
        markers_ok(b, xs),
        markers_ok(b, ys),
    ensures
        markers_ok(b, xs + ys),
{
    assert forall|k: int| 0 <= k < (xs + ys).len() implies #[trigger] marker_bytes(b, (xs + ys)[k]) by {
        if k < xs.len() {
            assert((xs + ys)[k] == xs[k]);
            assert(marker_bytes(b, xs[k]));
        } else {
            assert((xs + ys)[k] == ys[k - xs.len()]);
            assert(marker_bytes(b, ys[k - xs.len()]));
        }
    }
}

proof fn lemma_emit_markers(b: Seq<u8>, s: LexState, kind: TokenKind, e: int)
    requires
        marker_bytes(b, tok(kind, s.i as int, e)),
    ensures
        markers_ok(b, emit(s, kind, e).0),
{
    let ts = emit(s, kind, e).0;
    assert forall|k: int| 0 <= k < ts.len() implies #[trigger] marker_bytes(b, ts[k]) by {
        if k == ts.len() - 1 {
            assert(ts[k] == tok(kind, s.i as int, e));
        }
    }
}

proof fn lemma_emit_indented_markers(b: Seq<u8>, s: LexState, kind: TokenKind, a: int, e: int)
    requires
        marker_bytes(b, tok(kind, a, e)),
    ensures
        markers_ok(b, emit_indented(s, kind, a, e).0),
{
    let ts = emit_indented(s, kind, a, e).0;
    assert forall|k: int| 0 <= k < ts.len() implies #[trigger] marker_bytes(b, ts[k]) by {
        if k == ts.len() - 1 {
            assert(ts[k] == tok(kind, a, e));
        }
    }
}

#[verifier::rlimit(40)]
proof fn lemma_step_markers(b: Seq<u8>, s: LexState)
    requires
        state_ok(b, s),
        s.i < b.len(),
    ensures
        markers_ok(b, lex_step(b, s).0),
{
    let i = s.i as int;
    let n = b.len() as int;
    lemma_step_progress(b, s);
    let r = lex_step(b, s);
    if b[i] == LT && opaque_at(b, i) is Some {
        lemma_opaque_end(b, i);
        lemma_emit_markers(b, s, TokenKind::Opaque { kind: opaque_kind(opaque_at(b, i)->0) }, opaque_end(b, i, opaque_at(b, i)->0));
    } else if b[i] == LT && html_tag_end(b, i) is Some {
        lemma_html_tag_end(b, i);
        lemma_emit_markers(b, s, TokenKind::HtmlTag, html_tag_end(b, i)->0);
    } else if i == s.line_start && line_hit(b, i) is Some {
        lemma_line_hit_bounds(b, i);
        let e = line_end(b, i);
        match line_hit(b, i)->0 {
            LineHit::Preformatted { end } => {
                lemma_emit_markers(b, s, TokenKind::Opaque { kind: Opaque::Preformatted }, end as int);
            },
            LineHit::Rule { start, end } => {
                lemma_emit_indented_markers(b, s, TokenKind::HorizontalRule, start as int, end as int);
            },
            LineHit::Heading { start, level } => {
                lemma_heading_markers(b, i, e);
                lemma_emit_indented_markers(b, s, TokenKind::HeadingMarker { level: level }, start as int, start + level);
            },
            LineHit::List { start, len } => {
                lemma_emit_indented_markers(b, s, TokenKind::ListMarker, start as int, start + len);
            },
        }
    } else if b[i] == EQ && in_heading_tail(b, i) {
        lemma_run_len(b, EQ, i, n);
        let run = run_len(b, EQ, i, n);
        lemma_emit_markers(b, s, TokenKind::HeadingMarker { level: run as usize }, i + run);
    } else if b[i] == LBRACE && brace_hit(b, i) is Some {
        lemma_brace_hit(b, i);
        let kind = (brace_hit(b, i)->0).0;
        let len = (brace_hit(b, i)->0).1;
        lemma_emit_markers(b, s, kind, i + len);
    } else if b[i] == RBRACE && s.macro_depth > 0 {
        lemma_emit_markers(b, s, TokenKind::MacroClose, i + 1);
    } else if b[i] == LBRACKET && i + 1 < n && b[i + 1] == LBRACKET {
        lemma_first_match(b, lit_close_link(), i);
        match first_match(b, lit_close_link(), i) {
            Some(p) => {
                lemma_emit_markers(b, s, TokenKind::Link { kind: link_kind(b, i + 2, p) }, p + 2);
            },
            None => {
                lemma_emit_markers(b, s, TokenKind::DanglingBracket { open: true }, i + 2);
            },
        }
    } else if b[i] == RBRACKET && i + 1 < n && b[i + 1] == RBRACKET {
        lemma_emit_markers(b, s, TokenKind::DanglingBracket { open: false }, i + 2);
    } else if b[i] == LBRACKET && is_ext_start(b, i) && first_byte(b, RBRACKET, i, n) is Some {
        lemma_first_byte(b, RBRACKET, i, n);
        let rb = first_byte(b, RBRACKET, i, n)->0;
        lemma_first_byte(b, SPACE, i, rb);
        match first_byte(b, SPACE, i, rb) {
            Some(sp) => {
                lemma_emit_markers(b, s, TokenKind::ExternalLinkOpen, sp + 1);
            },
            None => {
                lemma_emit_markers(b, s, TokenKind::ExternalLink, rb + 1);
            },
        }
    } else if b[i] == RBRACKET && s.ext_depth > 0 {
        lemma_emit_markers(b, s, TokenKind::ExternalLinkClose, i + 1);
    } else if b[i] == QUOTE && run_len(b, QUOTE, i, n) >= 3 {
        lemma_emit_markers(b, s, TokenKind::Bold, i + 3);
    } else if b[i] == QUOTE && run_len(b, QUOTE, i, n) == 2 {
        lemma_emit_markers(b, s, TokenKind::Italic, i + 2);
    } else if matches_at(b, i, lit_toc()) {
        lemma_emit_markers(b, s, TokenKind::Toc, i + 7);
    } else if b[i] == NL {
        lemma_emit_markers(b, s, TokenKind::Newline, i + 1);
    } else {
        assert(r.0 =~= Seq::<Token>::empty());
    }
}

proof fn lemma_lex_from_markers(b: Seq<u8>, s: LexState)
    requires
        state_ok(b, s),
    ensures
        markers_ok(b, lex_from(b, s)),
    decreases b.len() - s.i,
{
    if s.i >= b.len() {
        let f = flush(s.text_from as int, b.len() as int);
        assert forall|k: int| 0 <= k < f.len() implies #[trigger] marker_bytes(b, f[k]) by {}
    } else {
        lemma_step_progress(b, s);
        lemma_step_markers(b, s);
        let r = lex_step(b, s);
        lemma_lex_from_markers(b, r.1);
        lemma_markers_concat(b, r.0, lex_from(b, r.1));
    }
}

/// Every heading-marker token of `b` is a run of exactly `level` `=` bytes.
pub proof fn lemma_lex_markers(b: Seq<u8>)
    requires
        b.len() <= usize::MAX,
    ensures
        markers_ok(b, lex_spec(b)),
{
    lemma_lex_from_markers(b, start_state());
}

// ---------------------------------------------------------------------------
// Where line breaks can hide inside tokens
// ---------------------------------------------------------------------------

/// No `\n` in `b[a..e]`.
pub open spec fn no_nl(b: Seq<u8>, a: int, e: int) -> bool {
    forall|q: int| a <= q < e ==> b[q] != NL
}

/// A token holding a `\n` is a newline, or a construct opened by `<`, `[`
/// or `{` that ends with `>`, `]` or `}`, runs to the end of the text, or is
/// the opener of a labelled external link, which ends with a space.
pub open spec fn nl_ok(b: Seq<u8>, t: Token) -> bool {
    let a = t.span.start as int;
    let e = t.span.end as int;
    ||| no_nl(b, a, e)
    ||| t.kind is Newline
    ||| ((b[a] == LT || b[a] == LBRACKET || b[a] == LBRACE) && ((t.kind is ExternalLinkOpen && b[e - 1]
        == SPACE) || e == b.len() || b[e - 1] == GT || b[e - 1] == RBRACKET || b[e - 1] == RBRACE))
}

pub open spec fn nls_ok(b: Seq<u8>, ts: Seq<Token>) -> bool {
    forall|k: int| 0 <= k < ts.len() ==> #[trigger] nl_ok(b, ts[k])
}

proof fn lemma_nls_concat(b: Seq<u8>, xs: Seq<Token>, ys: Seq<Token>)
    requires
        nls_ok(b, xs),
        nls_ok(b, ys),
    ensures
        nls_ok(b, xs + ys),
{
    assert forall|k: int| 0 <= k < (xs + ys).len() implies #[trigger] nl_ok(b, (xs + ys)[k]) by {
        if k < xs.len() {
            assert((xs + ys)[k] == xs[k]);
            assert(nl_ok(b, xs[k]));
        } else {
            assert((xs + ys)[k] == ys[k - xs.len()]);
            assert(nl_ok(b, ys[k - xs.len()]));
        }
    }
}

proof fn lemma_emit_nl(b: Seq<u8>, s: LexState, kind: TokenKind, e: int)
    requires
        no_nl(b, s.text_from as int, s.i as int),
        nl_ok(b, tok(kind, s.i as int, e)),
    ensures
        nls_ok(b, emit(s, kind, e).0),
{
    let ts = emit(s, kind, e).0;
    assert forall|k: int| 0 <= k < ts.len() implies #[trigger] nl_ok(b, ts[k]) by {
        if k == ts.len() - 1 {
            assert(ts[k] == tok(kind, s.i as int, e));
        }
    }
}

proof fn lemma_emit_indented_nl(b: Seq<u8>, s: LexState, kind: TokenKind, a: int, e: int)
    requires
        no_nl(b, s.text_from as int, s.i as int),
        no_nl(b, s.i as int, a),
        nl_ok(b, tok(kind, a, e)),
    ensures
        nls_ok(b, emit_indented(s, kind, a, e).0),
{
    let ts = emit_indented(s, kind, a, e).0;
    assert forall|k: int| 0 <= k < ts.len() implies #[trigger] nl_ok(b, ts[k]) by {
        if k == ts.len() - 1 {
            assert(ts[k] == tok(kind, a, e));
        }
    }
}

#[verifier::rlimit(60)]
proof fn lemma_step_nl(b: Seq<u8>, s: LexState)
    requires
        state_ok(b, s),
        s.i < b.len(),
        no_nl(b, s.text_from as int, s.i as int),
    ensures
        nls_ok(b, lex_step(b, s).0),
        no_nl(b, lex_step(b, s).1.text_from as int, lex_step(b, s).1.i as int),
{
    let i = s.i as int;
    let n = b.len() as int;
    lemma_step_progress(b, s);
    let r = lex_step(b, s);
    if b[i] == LT && opaque_at(b, i) is Some {
        lemma_opaque_end(b, i);
        lemma_emit_nl(b, s, TokenKind::Opaque { kind: opaque_kind(opaque_at(b, i)->0) }, opaque_end(b, i, opaque_at(b, i)->0));
    } else if b[i] == LT && html_tag_end(b, i) is Some {
        lemma_html_tag_end(b, i);
        lemma_emit_nl(b, s, TokenKind::HtmlTag, html_tag_end(b, i)->0);
    } else if i == s.line_start && line_hit(b, i) is Some {
        lemma_line_hit_bounds(b, i);
        lemma_line_end(b, i);
        let e = line_end(b, i);
        match line_hit(b, i)->0 {
            LineHit::Preformatted { end } => {
                lemma_emit_nl(b, s, TokenKind::Opaque { kind: Opaque::Preformatted }, end as int);
            },
            LineHit::Rule { start, end } => {
                lemma_emit_indented_nl(b, s, TokenKind::HorizontalRule, start as int, end as int);
            },
            LineHit::Heading { start, level } => {
                lemma_emit_indented_nl(b, s, TokenKind::HeadingMarker { level: level }, start as int, start + level);
            },
            LineHit::List { start, len } => {
                lemma_emit_indented_nl(b, s, TokenKind::ListMarker, start as int, start + len);
            },
        }
    } else if b[i] == EQ && in_heading_tail(b, i) {
        lemma_run_len(b, EQ, i, n);
        let run = run_len(b, EQ, i, n);
        lemma_emit_nl(b, s, TokenKind::HeadingMarker { level: run as usize }, i + run);
    } else if b[i] == LBRACE && brace_hit(b, i) is Some {
        lemma_brace_hit(b, i);
        lemma_brace_hit_nl(b, i);
        let kind = (brace_hit(b, i)->0).0;
        let len = (brace_hit(b, i)->0).1;
        lemma_emit_nl(b, s, kind, i + len);
    } else if b[i] == RBRACE && s.macro_depth > 0 {
        lemma_emit_nl(b, s, TokenKind::MacroClose, i + 1);
    } else if b[i] == LBRACKET && i + 1 < n && b[i + 1] == LBRACKET {
        lemma_first_match(b, lit_close_link(), i);
        match first_match(b, lit_close_link(), i) {
            Some(p) => {
                assert(b[p + 1] == lit_close_link()[1]);
                lemma_emit_nl(b, s, TokenKind::Link { kind: link_kind(b, i + 2, p) }, p + 2);
            },
            None => {
                lemma_emit_nl(b, s, TokenKind::DanglingBracket { open: true }, i + 2);
            },
        }
    } else if b[i] == RBRACKET && i + 1 < n && b[i + 1] == RBRACKET {
        lemma_emit_nl(b, s, TokenKind::DanglingBracket { open: false }, i + 2);
    } else if b[i] == LBRACKET && is_ext_start(b, i) && first_byte(b, RBRACKET, i, n) is Some {
        lemma_first_byte(b, RBRACKET, i, n);
        let rb = first_byte(b, RBRACKET, i, n)->0;
        lemma_first_byte(b, SPACE, i, rb);
        match first_byte(b, SPACE, i, rb) {
            Some(sp) => {
                assert(b[sp] == SPACE);
                lemma_emit_nl(b, s, TokenKind::ExternalLinkOpen, sp + 1);
            },
            None => {
                lemma_emit_nl(b, s, TokenKind::ExternalLink, rb + 1);
            },
        }
    } else if b[i] == RBRACKET && s.ext_depth > 0 {
        lemma_emit_nl(b, s, TokenKind::ExternalLinkClose, i + 1);
    } else if b[i] == QUOTE && run_len(b, QUOTE, i, n) >= 3 {
        lemma_run_len(b, QUOTE, i, n);
        lemma_emit_nl(b, s, TokenKind::Bold, i + 3);
    } else if b[i] == QUOTE && run_len(b, QUOTE, i, n) == 2 {
        lemma_run_len(b, QUOTE, i, n);
        lemma_emit_nl(b, s, TokenKind::Italic, i + 2);
    } else if matches_at(b, i, lit_toc()) {
        assert forall|q: int| i <= q < i + 7 implies b[q] != NL by {
            assert(b[i + (q - i)] == lit_toc()[q - i]);
        }
        lemma_emit_nl(b, s, TokenKind::Toc, i + 7);
    } else if b[i] == NL {
        lemma_emit_nl(b, s, TokenKind::Newline, i + 1);
    } else {
        assert(r.0 =~= Seq::<Token>::empty());
    }
}

/// What a brace construct covers holds no `\n`, unless it is a `{for ...}`
/// opener, which ends with `}`.
proof fn lemma_brace_hit_nl(b: Seq<u8>, i: int)
    requires
        0 <= i < b.len(),
        b[i] == LBRACE,
        brace_hit(b, i) is Some,
    ensures
        ({
            let kind = (brace_hit(b, i)->0).0;
            let len = (brace_hit(b, i)->0).1;
            no_nl(b, i, i + len) || b[i + len - 1] == RBRACE
        }),
{
    lemma_first_byte(b, RBRACE, i, b.len() as int);
    let len = (brace_hit(b, i)->0).1;
    if matches_at(b, i, lit_for_close()) {
        assert forall|q: int| i <= q < i + len implies b[q] != NL by {
            assert(b[i + (q - i)] == lit_for_close()[q - i]);
        }
    } else if matches_at(b, i, lit_note()) {
        assert forall|q: int| i <= q < i + len implies b[q] != NL by {
            assert(b[i + (q - i)] == lit_note()[q - i]);
        }
    } else if matches_at(b, i, lit_warning()) {
        assert forall|q: int| i <= q < i + len implies b[q] != NL by {
            assert(b[i + (q - i)] == lit_warning()[q - i]);
        }
    } else if matches_at(b, i, lit_note_close()) {
        assert forall|q: int| i <= q < i + len implies b[q] != NL by {
            assert(b[i + (q - i)] == lit_note_close()[q - i]);
        }
    } else if matches_at(b, i, lit_warning_close()) {
        assert forall|q: int| i <= q < i + len implies b[q] != NL by {
            assert(b[i + (q - i)] == lit_warning_close()[q - i]);
        }
    } else if matches_at(b, i, lit_for_bare()) || matches_at(b, i, lit_for_cond()) {
    } else {
        let k = macro_at(b, i)->0;
        assert forall|q: int| i <= q < i + len implies b[q] != NL by {
            assert(b[i + (q - i)] == macro_lit(k)[q - i]);
        }
    }
}

proof fn lemma_lex_from_nl(b: Seq<u8>, s: LexState)
    requires
        state_ok(b, s),
        no_nl(b, s.text_from as int, s.i as int),
    ensures
        nls_ok(b, lex_from(b, s)),
    decreases b.len() - s.i,
{
    if s.i >= b.len() {
        let f = flush(s.text_from as int, b.len() as int);
        assert forall|k: int| 0 <= k < f.len() implies #[trigger] nl_ok(b, f[k]) by {}
    } else {
        lemma_step_progress(b, s);
        lemma_step_nl(b, s);
        let r = lex_step(b, s);
        lemma_lex_from_nl(b, r.1);
        lemma_nls_concat(b, r.0, lex_from(b, r.1));
    }
}

/// A token that holds a line break is a newline, or is opened by `<`, `[`
/// or `{` and closed by `>`, `]` or `}` (or runs to the end, or opens a
/// labelled external link).
pub proof fn lemma_lex_nl(b: Seq<u8>)
    requires
        b.len() <= usize::MAX,
    ensures
        nls_ok(b, lex_spec(b)),
{
    lemma_lex_from_nl(b, start_state());
}


// ---------------------------------------------------------------------------
// Where heading markers stand
// ---------------------------------------------------------------------------

/// Marker `m` opens a heading line: it comes first (when `first`, the
/// tokens start a line), or right after a newline token, possibly with the
/// indentation as one text token between.
pub open spec fn opens_line(ts: Seq<Token>, m: int, first: bool) -> bool {
    ||| (m == 0 && first)
    ||| (m >= 1 && ts[m - 1].kind is Newline)
    ||| (m >= 1 && ts[m - 1].kind is Text && ((m == 1 && first) || (m >= 2 && ts[m
        - 2].kind is Newline)))
}

/// Every heading marker either closes a heading line or opens one.
pub open spec fn markers_placed(b: Seq<u8>, ts: Seq<Token>, first: bool) -> bool {
    forall|m: int|
        0 <= m < ts.len() && (#[trigger] ts[m]).kind is HeadingMarker ==> in_heading_tail(
            b,
            ts[m].span.start as int,
        ) || opens_line(ts, m, first)
}

proof fn lemma_placed_concat(b: Seq<u8>, xs: Seq<Token>, ys: Seq<Token>, f1: bool, f2: bool)
    requires
        markers_placed(b, xs, f1),
        markers_placed(b, ys, f2),
        f2 ==> (xs.len() > 0 && xs.last().kind is Newline) || (xs.len() == 0 && f1),
    ensures
        markers_placed(b, xs + ys, f1),
{
    let zs = xs + ys;
    assert forall|m: int| 0 <= m < zs.len() && (#[trigger] zs[m]).kind is HeadingMarker implies in_heading_tail(
        b,
        zs[m].span.start as int,
    ) || opens_line(zs, m, f1) by {
        if m < xs.len() {
            assert(zs[m] == xs[m]);
            if !in_heading_tail(b, zs[m].span.start as int) {
                assert(opens_line(xs, m, f1));
                if m >= 1 {
                    assert(zs[m - 1] == xs[m - 1]);
                }
                if m >= 2 {
                    assert(zs[m - 2] == xs[m - 2]);
                }
            }
        } else {
            let k = m - xs.len();
            assert(zs[m] == ys[k]);
            assert(ys[k].kind is HeadingMarker);
            if !in_heading_tail(b, zs[m].span.start as int) {
                assert(opens_line(ys, k, f2));
                if k >= 1 {
                    assert(zs[m - 1] == ys[k - 1]);
                }
                if k >= 2 {
                    assert(zs[m - 2] == ys[k - 2]);
                }
                if xs.len() > 0 {
                    assert(zs[xs.len() - 1] == xs.last());
                }
            }
        }
    }
}

proof fn lemma_emit_placed(b: Seq<u8>, s: LexState, kind: TokenKind, e: int, f: bool)
    requires
        kind is HeadingMarker ==> in_heading_tail(b, s.i as int),
    ensures
        markers_placed(b, emit(s, kind, e).0, f),
{
    let ts = emit(s, kind, e).0;
    assert forall|m: int| 0 <= m < ts.len() && (#[trigger] ts[m]).kind is HeadingMarker implies in_heading_tail(
        b,
        ts[m].span.start as int,
    ) || opens_line(ts, m, f) by {
        assert(ts[m] == tok(kind, s.i as int, e));
    }
}

proof fn lemma_brace_not_marker(b: Seq<u8>, i: int)
    requires
        brace_hit(b, i) is Some,
    ensures
        !((brace_hit(b, i)->0).0 is HeadingMarker),
{
}

proof fn lemma_step_placed(b: Seq<u8>, s: LexState)
    requires
        state_ok(b, s),
        s.i < b.len(),
        s.i == s.line_start ==> s.text_from == s.i,
    ensures
        markers_placed(b, lex_step(b, s).0, s.i == s.line_start),
        lex_step(b, s).1.i == lex_step(b, s).1.line_start ==> lex_step(b, s).1.text_from
            == lex_step(b, s).1.i && lex_step(b, s).0.len() > 0 && lex_step(b, s).0.last().kind is Newline,
{
    let i = s.i as int;
    let n = b.len() as int;
    let f = s.i == s.line_start;
    lemma_step_progress(b, s);
    let r = lex_step(b, s);
    if b[i] == LT && opaque_at(b, i) is Some {
        lemma_emit_placed(b, s, TokenKind::Opaque { kind: opaque_kind(opaque_at(b, i)->0) }, opaque_end(b, i, opaque_at(b, i)->0), f);
    } else if b[i] == LT && html_tag_end(b, i) is Some {
        lemma_emit_placed(b, s, TokenKind::HtmlTag, html_tag_end(b, i)->0, f);
    } else if i == s.line_start && line_hit(b, i) is Some {
        let ts = r.0;
        assert(flush(s.text_from as int, s.i as int) =~= Seq::<Token>::empty());
        assert forall|m: int| 0 <= m < ts.len() && (#[trigger] ts[m]).kind is HeadingMarker implies in_heading_tail(
            b,
            ts[m].span.start as int,
        ) || opens_line(ts, m, f) by {
            match line_hit(b, i)->0 {
                LineHit::Preformatted { end } => {},
                LineHit::Rule { start, end } => {},
                LineHit::Heading { start, level } => {},
                LineHit::List { start, len } => {},
            }
        }
    } else if b[i] == EQ && in_heading_tail(b, i) {
        let run = run_len(b, EQ, i, n);
        lemma_emit_placed(b, s, TokenKind::HeadingMarker { level: run as usize }, i + run, f);
    } else if b[i] == LBRACE && brace_hit(b, i) is Some {
        lemma_brace_not_marker(b, i);
        let kind = (brace_hit(b, i)->0).0;
        let len = (brace_hit(b, i)->0).1;
        lemma_emit_placed(b, s, kind, i + len, f);
    } else if b[i] == RBRACE && s.macro_depth > 0 {
        lemma_emit_placed(b, s, TokenKind::MacroClose, i + 1, f);
    } else if b[i] == LBRACKET && i + 1 < n && b[i + 1] == LBRACKET {
        match first_match(b, lit_close_link(), i) {
            Some(p) => {
                lemma_emit_placed(b, s, TokenKind::Link { kind: link_kind(b, i + 2, p) }, p + 2, f);
            },
            None => {
                lemma_emit_placed(b, s, TokenKind::DanglingBracket { open: true }, i + 2, f);
            },
        }
    } else if b[i] == RBRACKET && i + 1 < n && b[i + 1] == RBRACKET {
        lemma_emit_placed(b, s, TokenKind::DanglingBracket { open: false }, i + 2, f);
    } else if b[i] == LBRACKET && is_ext_start(b, i) && first_byte(b, RBRACKET, i, n) is Some {
        let rb = first_byte(b, RBRACKET, i, n)->0;
        match first_byte(b, SPACE, i, rb) {
            Some(sp) => {
                lemma_emit_placed(b, s, TokenKind::ExternalLinkOpen, sp + 1, f);
            },
            None => {
                lemma_emit_placed(b, s, TokenKind::ExternalLink, rb + 1, f);
            },
        }
    } else if b[i] == RBRACKET && s.ext_depth > 0 {
        lemma_emit_placed(b, s, TokenKind::ExternalLinkClose, i + 1, f);
    } else if b[i] == QUOTE && run_len(b, QUOTE, i, n) >= 3 {
        lemma_emit_placed(b, s, TokenKind::Bold, i + 3, f);
    } else if b[i] == QUOTE && run_len(b, QUOTE, i, n) == 2 {
        lemma_emit_placed(b, s, TokenKind::Italic, i + 2, f);
    } else if matches_at(b, i, lit_toc()) {
        lemma_emit_placed(b, s, TokenKind::Toc, i + 7, f);
    } else if b[i] == NL {
        lemma_emit_placed(b, s, TokenKind::Newline, i + 1, f);
    } else {
        assert(r.0 =~= Seq::<Token>::empty());
    }
}

proof fn lemma_lex_from_placed(b: Seq<u8>, s: LexState)
    requires
        state_ok(b, s),
        s.i == s.line_start ==> s.text_from == s.i,
    ensures
        markers_placed(b, lex_from(b, s), s.i == s.line_start),
    decreases b.len() - s.i,
{
    if s.i >= b.len() {
        let f = flush(s.text_from as int, b.len() as int);
        assert forall|m: int| 0 <= m < f.len() && (#[trigger] f[m]).kind is HeadingMarker implies in_heading_tail(
            b,
            f[m].span.start as int,
        ) || opens_line(f, m, s.i == s.line_start) by {}
    } else {
        lemma_step_progress(b, s);
        lemma_step_placed(b, s);
        let r = lex_step(b, s);
        lemma_lex_from_placed(b, r.1);
        lemma_placed_concat(b, r.0, lex_from(b, r.1), s.i == s.line_start, r.1.i == r.1.line_start);
    }
}

/// Every heading marker of `b` either closes its line (only `=` and white
/// space follow, on a line that opens with `=` and holds more than `=`) or
/// opens a line: it comes first, or right after a newline token, with at
/// most the indentation between.
pub proof fn lemma_lex_placed(b: Seq<u8>)
    requires
        b.len() <= usize::MAX,
    ensures
        markers_placed(b, lex_spec(b), true),
{
    lemma_lex_from_placed(b, start_state());
}


// ---------------------------------------------------------------------------
// External links open where they are written
// ---------------------------------------------------------------------------

/// A text that opens, in any ASCII case, with `[http://` or `[https://`, and
/// holds a `]` further on, starts with an external link: the opener
/// `[url ` up to and including the first space, when a space comes before
/// the first `]`, or else the whole link through that `]`.
pub proof fn lemma_lex_external_link_start(b: Seq<u8>)
    requires
        b.len() <= usize::MAX,
        matches_at_ci(b, 0, seq![91u8, 104, 116, 116, 112, 58, 47, 47]) || matches_at_ci(
            b,
            0,
            seq![91u8, 104, 116, 116, 112, 115, 58, 47, 47],
        ),
        exists|r: int| 0 < r < b.len() && b[r] == RBRACKET,
    ensures
        lex_spec(b).len() > 0,
        lex_spec(b)[0].span.start == 0,
        lex_spec(b)[0].kind is ExternalLinkOpen || lex_spec(b)[0].kind is ExternalLink,
        lex_spec(b)[0].kind is ExternalLinkOpen ==> {
            let e = lex_spec(b)[0].span.end as int;
            &&& 0 < e <= b.len()
            &&& b[e - 1] == SPACE
            &&& forall|q: int| 0 <= q < e - 1 ==> b[q] != SPACE && b[q] != RBRACKET
            &&& exists|r: int| e <= r < b.len() && b[r] == RBRACKET
        },
        lex_spec(b)[0].kind is ExternalLink ==> {
            let e = lex_spec(b)[0].span.end as int;
            &&& 0 < e <= b.len()
            &&& b[e - 1] == RBRACKET
            &&& forall|q: int| 0 <= q < e - 1 ==> b[q] != SPACE && b[q] != RBRACKET
        },
{
    let n = b.len() as int;
    let s = start_state();
    assert(b[0] == 91) by {
        if matches_at_ci(b, 0, seq![91u8, 104, 116, 116, 112, 58, 47, 47]) {
            assert(lower(b[0]) == lower(seq![91u8, 104, 116, 116, 112, 58, 47, 47][0]));
        } else {
            assert(lower(b[0]) == lower(seq![91u8, 104, 116, 116, 112, 115, 58, 47, 47][0]));
        }
    }
    assert(lower(b[1]) == 104) by {
        if matches_at_ci(b, 0, seq![91u8, 104, 116, 116, 112, 58, 47, 47]) {
            assert(lower(b[1]) == lower(seq![91u8, 104, 116, 116, 112, 58, 47, 47][1]));
        } else {
            assert(lower(b[1]) == lower(seq![91u8, 104, 116, 116, 112, 115, 58, 47, 47][1]));
        }
    }
    assert(b[1] != LBRACKET);
    assert(is_ext_start(b, 0)) by {
        assert(lit_http() =~= seq![91u8, 104, 116, 116, 112, 58, 47, 47]);
        assert(lit_https() =~= seq![91u8, 104, 116, 116, 112, 115, 58, 47, 47]);
    }
    // no line-anchored construct starts with `[`
    lemma_line_end(b, 0);
    let e = line_end(b, 0);
    assert(e > 0) by {
        if e == 0 {
            assert(b[0] == NL);
        }
    }
    assert(ws_at(b, 0, e) == 0);
    assert(skip_ws(b, 0, e) == 0);
    lemma_skip_ws_back(b, 0, e);
    assert(list_run(b, 0, e) == 0);
    assert(line_hit(b, 0) is None);
    let r0 = choose|r: int| 0 < r < b.len() && b[r] == RBRACKET;
    lemma_first_byte(b, RBRACKET, 0, n);
    assert(first_byte(b, RBRACKET, 0, n) is Some);
    let rb = first_byte(b, RBRACKET, 0, n)->0;
    lemma_first_byte(b, SPACE, 0, rb);
    lemma_step_progress(b, s);
    let r = lex_step(b, s);
    assert(flush(0, 0) =~= Seq::<Token>::empty());
    assert(lex_spec(b) == r.0 + lex_from(b, r.1));
    assert(r.0.len() == 1);
    assert((r.0 + lex_from(b, r.1))[0] == r.0[0]);
    match first_byte(b, SPACE, 0, rb) {
        Some(sp) => {
            assert(lex_spec(b)[0].span.end == sp + 1);
        },
        None => {
            assert(lex_spec(b)[0].span.end == rb + 1);
        },
    }
}

} // verus!
