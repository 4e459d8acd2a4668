//! The computations behind the language server: positions, the small JSON
//! reader and writer it needs, message framing, and the code actions it
//! offers.
//!
//! LSP positions are UTF-16 code units, while our spans are byte offsets.
//! That conversion is done in [`to_position`] and is not optional: getting it
//! wrong misplaces squiggles in any article containing non-ASCII text.
use vstd::prelude::*;
use vstd::utf8::*;
use vstd::string::*;
use crate::diagnostic::{count_byte, lemma_count_split, lemma_count_zero, line_start_before, Applicability, Diagnostic, DiagnosticView, Fix, FixView, Severity};
use crate::lexer::lex_spec;
use crate::rules::{check_spec, dec, digit_str, lit, push_decimal, report_ok, reports_ok, string_of, views};
use crate::style::{format_spec, HeadingSpacing, Style};
use crate::{apply_spec, chosen_fixes, lemma_nothing_to_fix, Document};
use crate::scan::{
    append, bytes_eq, bytes_match_at, find_byte, find_lit, first_byte, first_match, lemma_boundary_after_ascii,
    lemma_boundary_ascii, lemma_boundary_ends, lemma_encode_concat, lemma_first_byte, lemma_first_match,
    lemma_skip_ws, lemma_skip_ws_boundary, lemma_trimmed_ok, matches_at, new_string, ws_at, ws_before, push_ascii_byte, push_slice_raw, skip_ws,
    skip_ws_back, skip_ws_back_exec, skip_ws_exec, slice_ok, substr, trim_range, trimmed, utf8_of,
};

verus! {

// ---------------------------------------------------------------------------
// JSON strings
// ---------------------------------------------------------------------------

/// The lowercase hexadecimal digit for `n < 16`.
pub open spec fn hex_digit(n: int) -> u8 {
    if n < 10 {
        (48 + n) as u8
    } else {
        (87 + n) as u8
    }
}

/// How one byte of a string is written inside a JSON string literal.
pub open spec fn escape_byte(c: u8) -> Seq<u8> {
    if c == 34 {
        seq![92u8, 34u8]
    } else if c == 92 {
        seq![92u8, 92u8]
    } else if c == 10 {
        seq![92u8, 110u8]
    } else if c == 13 {
        seq![92u8, 114u8]
    } else if c == 9 {
        seq![92u8, 116u8]
    } else if c < 32 {
        seq![92u8, 117u8, 48u8, 48u8, hex_digit((c / 16) as int), hex_digit((c % 16) as int)]
    } else {
        seq![c]
    }
}

/// The bytes `b` escaped for a JSON string literal. Bytes of multi-byte
/// characters are at least 0x80, so escaping byte by byte is escaping
/// character by character.
pub open spec fn json_escape(b: Seq<u8>) -> Seq<u8>
    decreases b.len(),
{
    if b.len() == 0 {
        Seq::empty()
    } else {
        json_escape(b.drop_last()) + escape_byte(b.last())
    }
}

/// `b` as a JSON string literal, quotes included.
pub open spec fn json_quote(b: Seq<u8>) -> Seq<u8> {
    seq![34u8] + json_escape(b) + seq![34u8]
}

fn push_hex_digit(out: &mut String, n: u8)
    requires
        n < 16,
    ensures
        utf8_of(final(out)) == utf8_of(old(out)) + seq![hex_digit(n as int)],
{
    if n < 10 {
        push_ascii_byte(out, 48 + n);
    } else {
        push_ascii_byte(out, 87 + n);
    }
}

/// Appends the escape of a byte that needs one.
fn push_escape(out: &mut String, c: u8)
    requires
        c == 34 || c == 92 || c < 32,
    ensures
        utf8_of(final(out)) == utf8_of(old(out)) + escape_byte(c),
{
    let ghost o = utf8_of(out);
    push_ascii_byte(out, 92);
    if c == 34 {
        push_ascii_byte(out, 34);
    } else if c == 92 {
        push_ascii_byte(out, 92);
    } else if c == 10 {
        push_ascii_byte(out, 110);
    } else if c == 13 {
        push_ascii_byte(out, 114);
    } else if c == 9 {
        push_ascii_byte(out, 116);
    } else {
        push_ascii_byte(out, 117);
        push_ascii_byte(out, 48);
        push_ascii_byte(out, 48);
        push_hex_digit(out, c / 16);
        push_hex_digit(out, c % 16);
    }
    proof {
        assert(utf8_of(out) =~= o + escape_byte(c));
    }
}

/// Appends `s` escaped for a JSON string literal.
pub fn push_json_escaped(out: &mut String, s: &str)
    ensures
        utf8_of(final(out)) == utf8_of(old(out)) + json_escape(s.spec_bytes()),
{
    let ghost b = s.spec_bytes();
    let bytes = s.as_bytes();
    let n = bytes.len();
    proof {
        encode_utf8_valid_utf8(s@);
        lemma_boundary_ends(b);
    }
    let ghost o = utf8_of(out);
    let mut run: usize = 0;
    let mut k: usize = 0;
    while k < n
        invariant
            b == s.spec_bytes(),
            bytes@ == b,
            n == b.len(),
            valid_utf8(b),
            run <= k <= n,
            is_char_boundary(b, run as int),
            utf8_of(out) + b.subrange(run as int, k as int) == o + json_escape(b.subrange(0, k as int)),
        decreases n - k,
    {
        let c = bytes[k];
        let ghost before = utf8_of(out);
        proof {
            assert(b.subrange(0, k + 1).drop_last() =~= b.subrange(0, k as int));
            assert(b.subrange(0, k + 1).last() == c);
            assert(json_escape(b.subrange(0, k + 1)) == json_escape(b.subrange(0, k as int)) + escape_byte(c));
        }
        if c == 34 || c == 92 || c < 32 {
            proof {
                lemma_boundary_ascii(b, k as int);
                lemma_boundary_after_ascii(b, k + 1);
            }
            push_slice_raw(out, s, run, k);
            push_escape(out, c);
            proof {
                assert(utf8_of(out) == before + b.subrange(run as int, k as int) + escape_byte(c));
                assert(utf8_of(out) + b.subrange(k + 1, k + 1) =~= before + b.subrange(run as int, k as int) + escape_byte(c));
            }
            run = k + 1;
        } else {
            proof {
                assert(escape_byte(c) == seq![c]);
                assert(utf8_of(out) + b.subrange(run as int, k + 1) =~= utf8_of(out) + b.subrange(run as int, k as int) + seq![c]);
            }
        }
        k += 1;
    }
    push_slice_raw(out, s, run, n);
    proof {
        assert(b.subrange(0, n as int) =~= b);
    }
}

/// `s` as a JSON string literal.
pub fn json_str(s: &str) -> (r: String)
    ensures
        utf8_of(&r) == json_quote(s.spec_bytes()),
{
    let mut o = new_string();
    push_ascii_byte(&mut o, 34);
    push_json_escaped(&mut o, s);
    push_ascii_byte(&mut o, 34);
    o
}

// ---------------------------------------------------------------------------
// Positions
// ---------------------------------------------------------------------------

/// UTF-16 code units of the characters whose encodings start in `b[a..e]`:
/// two for a character outside the Basic Multilingual Plane (a four-byte
/// encoding), one for any other.
pub open spec fn utf16_units(b: Seq<u8>, a: int, e: int) -> int
    decreases e - a,
{
    if e <= a {
        0
    } else {
        utf16_units(b, a, e - 1) + if is_continuation_byte(b[e - 1]) {
            0int
        } else if b[e - 1] >= 0xF0 {
            2int
        } else {
            1int
        }
    }
}

/// The zero-based `(line, character)` of byte offset `offset` (clamped to
/// the end), with `character` counted in UTF-16 code units.
pub open spec fn position_spec(b: Seq<u8>, offset: int) -> (int, int) {
    let upto = if offset < b.len() {
        offset
    } else {
        b.len() as int
    };
    (count_byte(b, 10, 0, upto), utf16_units(b, line_start_before(b, upto), upto))
}

/// Where line `n` starts, counting lines from the one that starts at `p`.
pub open spec fn line_start_from(b: Seq<u8>, p: int, n: nat) -> Option<int>
    decreases n,
{
    if n == 0 {
        Some(p)
    } else {
        match first_byte(b, 10, p, b.len() as int) {
            Some(q) => line_start_from(b, q + 1, (n - 1) as nat),
            None => None,
        }
    }
}

/// From `q`, walk the characters of `b[..e]` while fewer than `ch` UTF-16
/// units have been passed; `units` have been passed already.
pub open spec fn advance(b: Seq<u8>, q: int, e: int, units: int, ch: int) -> int
    decreases e - q,
{
    if q >= e {
        q
    } else if is_continuation_byte(b[q]) {
        advance(b, q + 1, e, units, ch)
    } else if units >= ch {
        q
    } else {
        advance(b, q + 1, e, units + if b[q] >= 0xF0 {
            2int
        } else {
            1int
        }, ch)
    }
}

/// The byte offset of the zero-based UTF-16 position `(line, ch)`. A
/// `ch` past the end of its line clamps to the line's end (the newline is not
/// a column); a line past the end clamps to the end of the text.
pub open spec fn offset_spec(b: Seq<u8>, line: nat, ch: int) -> int {
    match line_start_from(b, 0, line) {
        Some(p) => {
            let e = match first_byte(b, 10, p, b.len() as int) {
                Some(q) => q,
                None => b.len() as int,
            };
            advance(b, p, e, 0, ch)
        },
        None => b.len() as int,
    }
}

proof fn lemma_units_bounded(b: Seq<u8>, a: int, e: int)
    requires
        a <= e,
    ensures
        0 <= utf16_units(b, a, e) <= 2 * (e - a),
    decreases e - a,
{
    if a < e {
        lemma_units_bounded(b, a, e - 1);
    }
}

proof fn lemma_units_mono(b: Seq<u8>, a: int, m: int, e: int)
    requires
        a <= m <= e,
    ensures
        utf16_units(b, a, m) <= utf16_units(b, a, e),
    decreases e - m,
{
    if m < e {
        lemma_units_mono(b, a, m, e - 1);
    }
}

/// Byte offset to a zero-based LSP position, counted in UTF-16 code units.
pub fn to_position(text: &str, offset: usize) -> (r: (usize, usize))
    requires
        is_char_boundary(
            text.spec_bytes(),
            if offset < text.spec_bytes().len() {
                offset as int
            } else {
                text.spec_bytes().len() as int
            },
        ),
    ensures
        (r.0 as int, r.1 as int) == position_spec(text.spec_bytes(), offset as int),
{
    let b = text.as_bytes();
    let upto = if offset < b.len() {
        offset
    } else {
        b.len()
    };
    let mut lines: usize = 0;
    let mut ls: usize = 0;
    let mut k: usize = 0;
    while k < upto
        invariant
            upto <= b@.len(),
            k <= upto,
            lines == count_byte(b@, 10, 0, k as int),
            ls == line_start_before(b@, k as int),
            lines <= k,
            ls <= k,
        decreases upto - k,
    {
        if b[k] == 10 {
            lines += 1;
            ls = k + 1;
        }
        k += 1;
    }
    proof {
        encode_utf8_valid_utf8(text@);
        lemma_units_fit(b@, ls as int, upto as int);
    }
    let mut units: usize = 0;
    let mut j = ls;
    while j < upto
        invariant
            ls <= j <= upto <= b@.len(),
            units == utf16_units(b@, ls as int, j as int),
            utf16_units(b@, ls as int, upto as int) <= b@.len(),
        decreases upto - j,
    {
        proof {
            lemma_units_mono(b@, ls as int, j + 1, upto as int);
            lemma_units_bounded(b@, ls as int, j + 1);
        }
        let c = b[j];
        if c >= 0xF0 {
            units += 2;
        } else if !(0x80 <= c && c <= 0xbf) {
            units += 1;
        }
        j += 1;
    }
    (lines, units)
}

/// Inverse of [`to_position`]: a UTF-16 position back to a byte offset.
///
/// A position past the end of a line or of the document clamps, because
/// clients do send `character` values beyond the last column.
pub fn from_position(text: &str, pos: (usize, usize)) -> (r: usize)
    ensures
        r as int == offset_spec(text.spec_bytes(), pos.0 as nat, pos.1 as int),
{
    let line = pos.0;
    let character = pos.1;
    let b = text.as_bytes();
    let len = b.len();
    let mut p: usize = 0;
    let mut n: usize = 0;
    while n < line
        invariant
            b@ == text.spec_bytes(),
            len == b@.len(),
            line == pos.0,
            character == pos.1,
            n <= line,
            p <= len,
            line_start_from(b@, 0, line as nat) == line_start_from(b@, p as int, (line - n) as nat),
        decreases line - n,
    {
        match find_byte(b, 10, p, len) {
            Some(q) => {
                proof {
                    lemma_first_byte(b@, 10, p as int, len as int);
                }
                p = q + 1;
                n += 1;
            },
            None => {
                proof {
                    assert(line_start_from(b@, p as int, (line - n) as nat) is None);
                    assert(offset_spec(b@, line as nat, character as int) == len as int);
                }
                return len;
            },
        }
    }
    let e = match find_byte(b, 10, p, len) {
        Some(q) => q,
        None => len,
    };
    proof {
        lemma_first_byte(b@, 10, p as int, len as int);
    }
    let mut q = p;
    let mut units: u128 = 0;
    while q < e
        invariant
            p <= q <= e <= len == b@.len(),
            units <= 2 * (q - p),
            advance(b@, p as int, e as int, 0, character as int) == advance(b@, q as int, e as int, units as int, character as int),
        ensures
            p <= q <= e,
            advance(b@, p as int, e as int, 0, character as int) == q,
        decreases e - q,
    {
        let c = b[q];
        if 0x80 <= c && c <= 0xbf {
            q += 1;
        } else if units >= character as u128 {
            break;
        } else {
            if c >= 0xF0 {
                units += 2;
            } else {
                units += 1;
            }
            q += 1;
        }
    }
    proof {
        assert(line_start_from(b@, p as int, 0) == Some(p as int));
    }
    q
}

// ---------------------------------------------------------------------------
// Positions round-trip
// ---------------------------------------------------------------------------

/// `line_start_before` is the start of the line holding `o`: right after a
/// newline (or the start), with no newline between it and `o`.
proof fn lemma_line_start_props(b: Seq<u8>, o: int)
    requires
        0 <= o <= b.len(),
    ensures
        0 <= line_start_before(b, o) <= o,
        line_start_before(b, o) == 0 || b[line_start_before(b, o) - 1] == 10,
        forall|q: int| line_start_before(b, o) <= q < o ==> b[q] != 10,
    decreases o,
{
    if o > 0 && b[o - 1] != 10 {
        lemma_line_start_props(b, o - 1);
    }
}

/// A line start `p` with no newline in `b[p..o]` is the start of `o`'s line.
proof fn lemma_line_start_is(b: Seq<u8>, p: int, o: int)
    requires
        0 <= p <= o <= b.len(),
        p == 0 || b[p - 1] == 10,
        forall|q: int| p <= q < o ==> b[q] != 10,
    ensures
        line_start_before(b, o) == p,
    decreases o - p,
{
    if o > p {
        lemma_line_start_is(b, p, o - 1);
    }
}

proof fn lemma_line_start_from(b: Seq<u8>, p: int, o: int)
    requires
        0 <= p <= o <= b.len(),
        p == 0 || b[p - 1] == 10,
    ensures
        line_start_from(b, p, count_byte(b, 10, p, o) as nat) == Some(line_start_before(b, o)),
    decreases o - p,
{
    lemma_count_zero(b, 10, p, o);
    let n = count_byte(b, 10, p, o);
    if n == 0 {
        lemma_line_start_is(b, p, o);
    } else {
        lemma_first_byte(b, 10, p, b.len() as int);
        let q = first_byte(b, 10, p, b.len() as int)->0;
        assert(q < o) by {
            if first_byte(b, 10, p, b.len() as int) is None || q >= o {
                assert forall|r: int| p <= r < o implies b[r] != 10 by {}
            }
        }
        lemma_count_split(b, 10, p, q, o);
        lemma_count_split(b, 10, q, q + 1, o);
        lemma_count_zero(b, 10, p, q);
        assert(b[q] == 10);
        assert(count_byte(b, 10, q, q) == 0);
        assert(count_byte(b, 10, q, q + 1) == 1);
        lemma_line_start_from(b, q + 1, o);
    }
}

proof fn lemma_advance(b: Seq<u8>, q: int, e: int, ls: int, o: int, ch: int)
    requires
        ls <= q <= o <= e <= b.len(),
        ch == utf16_units(b, ls, o),
        o < e ==> !is_continuation_byte(b[o]),
    ensures
        advance(b, q, e, utf16_units(b, ls, q), ch) == o,
    decreases o - q,
{
    if q < o {
        lemma_units_mono(b, ls, q + 1, o);
        lemma_advance(b, q + 1, e, ls, o, ch);
    }
}

/// Positions round-trip: for every character boundary of a text, turning the
/// byte offset into an LSP position and back gives the offset again.
pub proof fn lemma_positions_round_trip(b: Seq<u8>, o: int)
    requires
        valid_utf8(b),
        0 <= o <= b.len(),
        is_char_boundary(b, o),
    ensures
        offset_spec(b, position_spec(b, o).0 as nat, position_spec(b, o).1) == o,
{
    lemma_count_zero(b, 10, 0, o);
    lemma_line_start_props(b, o);
    let ls = line_start_before(b, o);
    lemma_line_start_from(b, 0, o);
    lemma_first_byte(b, 10, ls, b.len() as int);
    let e = match first_byte(b, 10, ls, b.len() as int) {
        Some(q) => q,
        None => b.len() as int,
    };
    assert(o <= e);
    if o < b.len() {
        is_char_boundary_iff_not_is_continuation_byte(b, o);
    }
    lemma_advance(b, ls, e, ls, o, utf16_units(b, ls, o));
}

// ---------------------------------------------------------------------------
// Reading numbers out of a request
// ---------------------------------------------------------------------------

pub open spec fn is_digit(c: u8) -> bool {
    48 <= c && c <= 57
}

/// Length of the run of ASCII digits at `i`, before `end`.
pub open spec fn digit_run(b: Seq<u8>, i: int, end: int) -> int
    decreases end - i,
{
    if 0 <= i < end && is_digit(b[i]) {
        1 + digit_run(b, i + 1, end)
    } else {
        0
    }
}

/// The value of the decimal digits `b[a..e]`.
pub open spec fn dec_value(b: Seq<u8>, a: int, e: int) -> int
    decreases e - a,
{
    if e <= a {
        0
    } else {
        dec_value(b, a, e - 1) * 10 + (b[e - 1] - 48)
    }
}

proof fn lemma_digit_run(b: Seq<u8>, i: int, end: int)
    requires
        0 <= i <= end <= b.len(),
    ensures
        0 <= digit_run(b, i, end) <= end - i,
        forall|q: int| i <= q < i + digit_run(b, i, end) ==> is_digit(#[trigger] b[q]),
    decreases end - i,
{
    if i < end && is_digit(b[i]) {
        lemma_digit_run(b, i + 1, end);
    }
}

proof fn lemma_dec_value_mono(b: Seq<u8>, a: int, m: int, e: int)
    requires
        a <= m <= e,
        forall|q: int| a <= q < e ==> is_digit(#[trigger] b[q]),
    ensures
        0 <= dec_value(b, a, m) <= dec_value(b, a, e),
    decreases e - a,
{
    if m < e {
        lemma_dec_value_mono(b, a, m, e - 1);
        assert(is_digit(b[e - 1]));
    } else if a < e {
        lemma_dec_value_mono(b, a, a, e - 1);
        assert(is_digit(b[e - 1]));
    }
}

/// The digits `b[a..e]` as a `usize`, or `None` when the value does not fit.
fn parse_digits(b: &[u8], a: usize, e: usize) -> (r: Option<usize>)
    requires
        a <= e <= b.len(),
        forall|q: int| a <= q < e ==> is_digit(#[trigger] b@[q]),
    ensures
        r matches Some(v) ==> v == dec_value(b@, a as int, e as int),
        r is None <==> dec_value(b@, a as int, e as int) > usize::MAX,
{
    let mut v: usize = 0;
    let mut k = a;
    while k < e
        invariant
            a <= k <= e <= b.len(),
            forall|q: int| a <= q < e ==> is_digit(#[trigger] b@[q]),
            v == dec_value(b@, a as int, k as int),
        decreases e - k,
    {
        let d = (b[k] - 48) as usize;
        assert(is_digit(b@[k as int]));
        match v.checked_mul(10) {
            Some(t) => match t.checked_add(d) {
                Some(w) => {
                    v = w;
                },
                None => {
                    proof {
                        lemma_dec_value_mono(b@, a as int, k + 1, e as int);
                    }
                    return None;
                },
            },
            None => {
                proof {
                    lemma_dec_value_mono(b@, a as int, k + 1, e as int);
                }
                return None;
            },
        }
        k += 1;
    }
    Some(v)
}

/// The integer after `key` and its colon, looking from `from` on, with where
/// to resume scanning (just past the key). `None` when `from` is not a
/// character boundary, the key is missing, no colon follows it, or no digits
/// follow the colon, or they do not fit a `usize`.
pub open spec fn next_uint_spec(s: Seq<u8>, key: Seq<u8>, from: int) -> Option<(int, int)> {
    if from < 0 || from > s.len() || !is_char_boundary(s, from) {
        None
    } else {
        match first_match(s, key, from) {
            None => None,
            Some(p) => {
                let after = p + key.len();
                let c = skip_ws(s, after, s.len() as int);
                if c < s.len() && s[c] == 58 {
                    let r = skip_ws(s, c + 1, s.len() as int);
                    let n = digit_run(s, r, s.len() as int);
                    if n > 0 && dec_value(s, r, r + n) <= usize::MAX {
                        Some((dec_value(s, r, r + n), after))
                    } else {
                        None
                    }
                } else {
                    None
                }
            },
        }
    }
}

/// Find `key` at or after `from` and parse the integer after its colon,
/// returning the value and where to resume scanning.
pub fn next_uint(s: &str, key: &str, from: usize) -> (r: Option<(usize, usize)>)
    ensures
        match r {
            Some((v, at)) => next_uint_spec(s.spec_bytes(), key.spec_bytes(), from as int) == Some(
                (v as int, at as int),
            ),
            None => next_uint_spec(s.spec_bytes(), key.spec_bytes(), from as int) is None,
        },
{
    let b = s.as_bytes();
    let n = b.len();
    if from > n || !s.is_char_boundary(from) {
        return None;
    }
    let p = match find_lit(b, key.as_bytes(), from) {
        Some(p) => p,
        None => {
            return None;
        },
    };
    proof {
        lemma_first_match(b@, key.spec_bytes(), from as int);
    }
    let after = p + key.as_bytes().len();
    let c = skip_ws_exec(b, after, n);
    if !(c < n && b[c] == 58) {
        return None;
    }
    let r = skip_ws_exec(b, c + 1, n);
    let mut e = r;
    while e < n && 48 <= b[e] && b[e] <= 57
        invariant
            r <= e <= n == b@.len(),
            digit_run(b@, r as int, n as int) == (e - r) + digit_run(b@, e as int, n as int),
        decreases n - e,
    {
        e += 1;
    }
    proof {
        lemma_digit_run(b@, r as int, n as int);
    }
    if e == r {
        return None;
    }
    match parse_digits(b, r, e) {
        Some(v) => Some((v, after)),
        None => None,
    }
}

/// `params.range` of a request: `((line, character), (line, character))`,
/// read from the first `"range"` in the body on.
pub open spec fn parse_range_spec(body: Seq<u8>) -> Option<((int, int), (int, int))> {
    match first_match(body, lit("\"range\""), 0) {
        None => None,
        Some(q) => {
            let rest = body.subrange(q, body.len() as int);
            match next_uint_spec(rest, lit("\"line\""), 0) {
                None => None,
                Some((l1, a1)) => match next_uint_spec(rest, lit("\"character\""), a1) {
                    None => None,
                    Some((c1, a2)) => match next_uint_spec(rest, lit("\"line\""), a2) {
                        None => None,
                        Some((l2, a3)) => match next_uint_spec(rest, lit("\"character\""), a3) {
                            None => None,
                            Some((c2, _)) => Some(((l1, c1), (l2, c2))),
                        },
                    },
                },
            }
        },
    }
}

/// Read `params.range` as `((line, character), (line, character))`.
///
/// The first `"range"` in a codeAction request is `params.range`; the ones
/// in `context.diagnostics` follow it.
pub fn parse_range(body: &str) -> (r: Option<((usize, usize), (usize, usize))>)
    ensures
        match r {
            Some(((l1, c1), (l2, c2))) => parse_range_spec(body.spec_bytes()) == Some(
                ((l1 as int, c1 as int), (l2 as int, c2 as int)),
            ),
            None => parse_range_spec(body.spec_bytes()) is None,
        },
{
    let b = body.as_bytes();
    let q = match find_lit(b, "\"range\"".as_bytes(), 0) {
        Some(q) => q,
        None => {
            return None;
        },
    };
    proof {
        encode_utf8_valid_utf8(body@);
        lemma_first_match(b@, lit("\"range\""), 0);
        reveal_strlit("\"range\"");
        assert(is_ascii("\"range\""));
        is_ascii_spec_bytes("\"range\"");
        assert(lit("\"range\"")[0] == 34);
        assert(b@[q as int] == lit("\"range\"")[0]);
        lemma_boundary_ascii(b@, q as int);
        lemma_boundary_ends(b@);
    }
    let rest = substr(body, q, b.len());
    let (l1, at) = match next_uint(rest, "\"line\"", 0) {
        Some(x) => x,
        None => {
            return None;
        },
    };
    let (c1, at) = match next_uint(rest, "\"character\"", at) {
        Some(x) => x,
        None => {
            return None;
        },
    };
    let (l2, at) = match next_uint(rest, "\"line\"", at) {
        Some(x) => x,
        None => {
            return None;
        },
    };
    let (c2, _) = match next_uint(rest, "\"character\"", at) {
        Some(x) => x,
        None => {
            return None;
        },
    };
    Some(((l1, c1), (l2, c2)))
}

// ---------------------------------------------------------------------------
// Writing LSP JSON
// ---------------------------------------------------------------------------

proof fn lemma_json_escape_concat(a: Seq<u8>, b: Seq<u8>)
    ensures
        json_escape(a + b) == json_escape(a) + json_escape(b),
    decreases b.len(),
{
    if b.len() == 0 {
        assert(a + b =~= a);
        assert(json_escape(b) =~= Seq::<u8>::empty());
        assert(json_escape(a) + json_escape(b) =~= json_escape(a));
    } else {
        lemma_json_escape_concat(a, b.drop_last());
        assert((a + b).drop_last() =~= a + b.drop_last());
        assert((a + b).last() == b.last());
    }
}

/// Offset `o` (clamped to the end) falls on a character boundary of `b`.
pub open spec fn pos_ok(b: Seq<u8>, o: int) -> bool {
    is_char_boundary(b, if o < b.len() { o } else { b.len() as int })
}

/// A byte span of `b` as an LSP `Range`.
pub open spec fn range_json_spec(b: Seq<u8>, start: int, end: int) -> Seq<u8> {
    let s = position_spec(b, start);
    let e = position_spec(b, end);
    lit("{\"start\":{\"line\":") + dec(s.0 as nat) + lit(",\"character\":") + dec(s.1 as nat) + lit(
        "},\"end\":{\"line\":",
    ) + dec(e.0 as nat) + lit(",\"character\":") + dec(e.1 as nat) + lit("}}")
}

/// A byte span as an LSP `Range`.
pub fn range_json(text: &str, span: &std::ops::Range<usize>) -> (r: String)
    requires
        pos_ok(text.spec_bytes(), span.start as int),
        pos_ok(text.spec_bytes(), span.end as int),
    ensures
        utf8_of(&r) == range_json_spec(text.spec_bytes(), span.start as int, span.end as int),
{
    let s = to_position(text, span.start);
    let e = to_position(text, span.end);
    let mut o = new_string();
    append(&mut o, "{\"start\":{\"line\":");
    push_decimal(&mut o, s.0);
    append(&mut o, ",\"character\":");
    push_decimal(&mut o, s.1);
    append(&mut o, "},\"end\":{\"line\":");
    push_decimal(&mut o, e.0);
    append(&mut o, ",\"character\":");
    push_decimal(&mut o, e.1);
    append(&mut o, "}}");
    proof {
        assert(utf8_of(&o) =~= range_json_spec(text.spec_bytes(), span.start as int, span.end as int));
    }
    o
}

/// A `TextEdit` replacing the whole of `b` by `new`.
pub open spec fn whole_edit_spec(b: Seq<u8>, new: Seq<u8>) -> Seq<u8> {
    let end = position_spec(b, b.len() as int);
    lit("{\"range\":{\"start\":{\"line\":0,\"character\":0},\"end\":{\"line\":") + dec(end.0 as nat) + lit(
        ",\"character\":",
    ) + dec(end.1 as nat) + lit("}},\"newText\":") + json_quote(new) + lit("}")
}

/// A `TextEdit` replacing the whole document.
pub fn whole_document_edit(text: &str, new_text: &str) -> (r: String)
    ensures
        utf8_of(&r) == whole_edit_spec(text.spec_bytes(), new_text.spec_bytes()),
{
    proof {
        encode_utf8_valid_utf8(text@);
        lemma_boundary_ends(text.spec_bytes());
    }
    let end = to_position(text, text.as_bytes().len());
    let mut o = new_string();
    append(&mut o, "{\"range\":{\"start\":{\"line\":0,\"character\":0},\"end\":{\"line\":");
    push_decimal(&mut o, end.0);
    append(&mut o, ",\"character\":");
    push_decimal(&mut o, end.1);
    append(&mut o, "}},\"newText\":");
    let q = json_str(new_text);
    append(&mut o, q.as_str());
    append(&mut o, "}");
    proof {
        assert(utf8_of(&o) =~= whole_edit_spec(text.spec_bytes(), new_text.spec_bytes()));
    }
    o
}

/// The note appended to a diagnostic's message about its fix.
pub open spec fn fix_hint(f: Option<FixView>) -> Seq<u8> {
    match f {
        Some(x) => match x.applicability {
            Applicability::Safe => lit(" (fixable)"),
            Applicability::Unsafe => lit(" (fix available, needs review)"),
        },
        None => lit(""),
    }
}

pub open spec fn severity_json(s: Severity) -> Seq<u8> {
    match s {
        Severity::Error => lit("1"),
        Severity::Warning => lit("2"),
    }
}

/// One diagnostic of `b` as LSP JSON.
pub open spec fn diagnostic_json_spec(b: Seq<u8>, d: DiagnosticView) -> Seq<u8> {
    lit("{\"range\":") + range_json_spec(b, d.start as int, d.end as int) + lit(",\"severity\":")
        + severity_json(d.severity) + lit(",\"code\":\"") + lit(d.code) + lit(
        "\",\"source\":\"sumo-lint\",\"message\":",
    ) + json_quote(d.message + fix_hint(d.fix)) + lit("}")
}

/// One `Diagnostic` as LSP JSON.
///
/// Shared with the code-action handler so the `diagnostics` it attaches to
/// each quick fix are byte-identical to the published ones: that is how the
/// client pairs a fix with its squiggle.
pub fn diagnostic_json(text: &str, d: &Diagnostic) -> (r: String)
    requires
        pos_ok(text.spec_bytes(), d.span.start as int),
        pos_ok(text.spec_bytes(), d.span.end as int),
    ensures
        utf8_of(&r) == diagnostic_json_spec(text.spec_bytes(), d@),
{
    let hint = match &d.fix {
        Some(f) => match f.applicability {
            Applicability::Safe => " (fixable)",
            Applicability::Unsafe => " (fix available, needs review)",
        },
        None => "",
    };
    let ghost hb = fix_hint(d@.fix);
    assert(hint.spec_bytes() == hb);
    let mut o = new_string();
    append(&mut o, "{\"range\":");
    let rj = range_json(text, &d.span);
    append(&mut o, rj.as_str());
    append(&mut o, ",\"severity\":");
    match d.severity {
        Severity::Error => append(&mut o, "1"),
        Severity::Warning => append(&mut o, "2"),
    }
    append(&mut o, ",\"code\":\"");
    append(&mut o, d.code);
    append(&mut o, "\",\"source\":\"sumo-lint\",\"message\":");
    let ghost before = utf8_of(&o);
    push_ascii_byte(&mut o, 34);
    push_json_escaped(&mut o, d.message.as_str());
    push_json_escaped(&mut o, hint);
    push_ascii_byte(&mut o, 34);
    proof {
        lemma_json_escape_concat(encode_utf8(d.message@), hb);
        assert(utf8_of(&o) =~= before + json_quote(encode_utf8(d.message@) + hb));
    }
    append(&mut o, "}");
    proof {
        assert(utf8_of(&o) =~= diagnostic_json_spec(text.spec_bytes(), d@));
    }
    o
}

// ---------------------------------------------------------------------------
// Code actions
// ---------------------------------------------------------------------------

/// The byte span a code-action request covers: its `params.range`, or the
/// whole document when that cannot be read.
pub open spec fn action_span(b: Seq<u8>, body: Seq<u8>) -> (int, int) {
    match parse_range_spec(body) {
        Some((s, e)) => (offset_spec(b, s.0 as nat, s.1), offset_spec(b, e.0 as nat, e.1)),
        None => (0, b.len() as int),
    }
}

pub open spec fn quick_fix_title(d: DiagnosticView, f: FixView) -> Seq<u8> {
    lit(d.code) + lit(": ") + f.description + if f.applicability == Applicability::Safe {
        lit("")
    } else {
        lit(" (needs review)")
    }
}

/// The quick fix offered for diagnostic `d` of `b`, whose fix is `f`.
pub open spec fn quick_fix_spec(uri: Seq<u8>, b: Seq<u8>, d: DiagnosticView, f: FixView) -> Seq<u8> {
    lit("{\"title\":") + json_quote(quick_fix_title(d, f)) + lit(",\"kind\":\"quickfix\",\"isPreferred\":")
        + if f.applicability == Applicability::Safe {
        lit("true")
    } else {
        lit("false")
    } + lit(",\"diagnostics\":[") + diagnostic_json_spec(b, d) + lit("],\"edit\":{\"changes\":{")
        + json_quote(uri) + lit(":[{\"range\":") + range_json_spec(b, f.start as int, f.end as int)
        + lit(",\"newText\":") + json_quote(f.replacement) + lit("}]}}}")
}

/// Quick fixes for the fixable diagnostics among `ds` that overlap
/// `start..end`. Overlap, not containment: a client sends a zero-width range
/// at the caret, which no span contains.
pub open spec fn quick_fixes(uri: Seq<u8>, b: Seq<u8>, ds: Seq<DiagnosticView>, start: int, end: int) -> Seq<Seq<u8>>
    decreases ds.len(),
{
    if ds.len() == 0 {
        Seq::empty()
    } else {
        let rest = quick_fixes(uri, b, ds.drop_last(), start, end);
        let d = ds.last();
        match d.fix {
            Some(f) => if f.start > end || f.end < start {
                rest
            } else {
                rest.push(quick_fix_spec(uri, b, d, f))
            },
            None => rest,
        }
    }
}

pub open spec fn fix_all_title(count: nat) -> Seq<u8> {
    lit("sumo-lint: apply ") + dec(count) + lit(" safe ") + if count == 1 {
        lit("fix")
    } else {
        lit("fixes")
    }
}

/// The document-wide action that applies every safe fix.
pub open spec fn fix_all_spec(uri: Seq<u8>, b: Seq<u8>, fixed: Seq<u8>, count: nat) -> Seq<u8> {
    lit("{\"title\":") + json_quote(fix_all_title(count)) + lit(
        ",\"kind\":\"source.fixAll.sumo-lint\",\"edit\":{\"changes\":{",
    ) + json_quote(uri) + lit(":[") + whole_edit_spec(b, fixed) + lit("]}}}")
}

/// The pieces, separated by commas.
pub open spec fn join_commas(xs: Seq<Seq<u8>>) -> Seq<u8>
    decreases xs.len(),
{
    if xs.len() == 0 {
        Seq::empty()
    } else if xs.len() == 1 {
        xs[0]
    } else {
        join_commas(xs.drop_last()) + lit(",") + xs.last()
    }
}

/// The code actions answered for a request `body` about the document `b`.
pub open spec fn code_actions_spec(uri: Seq<u8>, b: Seq<u8>, body: Seq<u8>) -> Seq<u8> {
    let ds = check_spec(b, lex_spec(b));
    let span = action_span(b, body);
    let qs = quick_fixes(uri, b, ds, span.0, span.1);
    let fixed = apply_spec(b, ds, false);
    let all = if fixed.1 > 0 && fixed.0 != b {
        qs.push(fix_all_spec(uri, b, fixed.0, fixed.1))
    } else {
        qs
    };
    lit("[") + join_commas(all) + lit("]")
}

pub proof fn lemma_join_push(xs: Seq<Seq<u8>>, x: Seq<u8>)
    ensures
        join_commas(xs.push(x)) == if xs.len() == 0 {
            x
        } else {
            join_commas(xs) + lit(",") + x
        },
{
    assert(xs.push(x).drop_last() =~= xs);
}

/// Appends `piece` to a comma-separated list.
fn push_item(out: &mut String, first: bool, piece: &str, Ghost(xs): Ghost<Seq<Seq<u8>>>)
    requires
        utf8_of(old(out)) == lit("[") + join_commas(xs),
        first == (xs.len() == 0),
    ensures
        utf8_of(final(out)) == lit("[") + join_commas(xs.push(piece.spec_bytes())),
{
    if !first {
        append(out, ",");
    }
    append(out, piece);
    proof {
        let ys = xs.push(piece.spec_bytes());
        assert(ys.drop_last() =~= xs);
        if xs.len() == 0 {
            assert(utf8_of(out) =~= lit("[") + join_commas(ys));
        } else {
            assert(utf8_of(out) =~= lit("[") + join_commas(ys));
        }
    }
}

fn quick_fix(uri: &str, text: &str, d: &Diagnostic, f: &Fix) -> (r: String)
    requires
        slice_ok(text.spec_bytes(), d.span.start as int, d.span.end as int),
        f.span.start == d.span.start,
        f.span.end == d.span.end,
    ensures
        utf8_of(&r) == quick_fix_spec(uri.spec_bytes(), text.spec_bytes(), d@, f@),
{
    let safe = matches!(f.applicability, Applicability::Safe);
    let mut title = new_string();
    append(&mut title, d.code);
    append(&mut title, ": ");
    append(&mut title, f.description.as_str());
    if !safe {
        append(&mut title, " (needs review)");
    } else {
        append(&mut title, "");
    }
    let mut o = new_string();
    append(&mut o, "{\"title\":");
    let t = json_str(title.as_str());
    append(&mut o, t.as_str());
    append(&mut o, ",\"kind\":\"quickfix\",\"isPreferred\":");
    if safe {
        append(&mut o, "true");
    } else {
        append(&mut o, "false");
    }
    append(&mut o, ",\"diagnostics\":[");
    let dj = diagnostic_json(text, d);
    append(&mut o, dj.as_str());
    append(&mut o, "],\"edit\":{\"changes\":{");
    let u = json_str(uri);
    append(&mut o, u.as_str());
    append(&mut o, ":[{\"range\":");
    let rj = range_json(text, &f.span);
    append(&mut o, rj.as_str());
    append(&mut o, ",\"newText\":");
    let nt = json_str(f.replacement.as_str());
    append(&mut o, nt.as_str());
    append(&mut o, "}]}}}");
    proof {
        assert(utf8_of(&title) =~= quick_fix_title(d@, f@));
        assert(utf8_of(&o) =~= quick_fix_spec(uri.spec_bytes(), text.spec_bytes(), d@, f@));
    }
    o
}

fn fix_all(uri: &str, text: &str, fixed: &str, count: usize) -> (r: String)
    ensures
        utf8_of(&r) == fix_all_spec(uri.spec_bytes(), text.spec_bytes(), fixed.spec_bytes(), count as nat),
{
    let mut title = new_string();
    append(&mut title, "sumo-lint: apply ");
    push_decimal(&mut title, count);
    append(&mut title, " safe ");
    if count == 1 {
        append(&mut title, "fix");
    } else {
        append(&mut title, "fixes");
    }
    let mut o = new_string();
    append(&mut o, "{\"title\":");
    let t = json_str(title.as_str());
    append(&mut o, t.as_str());
    append(&mut o, ",\"kind\":\"source.fixAll.sumo-lint\",\"edit\":{\"changes\":{");
    let u = json_str(uri);
    append(&mut o, u.as_str());
    append(&mut o, ":[");
    let w = whole_document_edit(text, fixed);
    append(&mut o, w.as_str());
    append(&mut o, "]}}}");
    proof {
        assert(utf8_of(&title) =~= fix_all_title(count as nat));
        assert(utf8_of(&o) =~= fix_all_spec(uri.spec_bytes(), text.spec_bytes(), fixed.spec_bytes(), count as nat));
    }
    o
}

/// Quick fixes for the fixable diagnostics overlapping the requested range,
/// plus a document-wide `source.fixAll.sumo-lint` action.
///
/// `Unsafe` fixes are offered too: a code action is an explicit, reviewable,
/// undoable choice by the author. The title says so.
pub fn code_actions(uri: &str, text: &str, body: &str) -> (r: String)
    ensures
        utf8_of(&r) == code_actions_spec(uri.spec_bytes(), text.spec_bytes(), body.spec_bytes()),
{
    let ghost b = text.spec_bytes();
    let (start, end) = match parse_range(body) {
        Some((s, e)) => (from_position(text, s), from_position(text, e)),
        None => (0, text.as_bytes().len()),
    };
    let doc = Document::parse(text);
    let diagnostics = doc.diagnostics();
    let ghost ds = views(diagnostics@);
    proof {
        assert(doc.bytes() == b);
    }
    let mut out = new_string();
    append(&mut out, "[");
    let ghost mut xs: Seq<Seq<u8>> = Seq::empty();
    proof {
        assert(utf8_of(&out) =~= lit("[") + join_commas(xs));
    }
    let mut first = true;
    let mut k: usize = 0;
    while k < diagnostics.len()
        invariant
            b == text.spec_bytes(),
            ds == views(diagnostics@),
            reports_ok(b, ds),
            (start as int, end as int) == action_span(b, body.spec_bytes()),
            k <= ds.len(),
            xs == quick_fixes(uri.spec_bytes(), b, ds.subrange(0, k as int), start as int, end as int),
            first == (xs.len() == 0),
            utf8_of(&out) == lit("[") + join_commas(xs),
        decreases diagnostics.len() - k,
    {
        let d = &diagnostics[k];
        proof {
            assert(ds.subrange(0, k + 1).drop_last() =~= ds.subrange(0, k as int));
            assert(ds.subrange(0, k + 1).last() == d@);
            assert(report_ok(b, ds[k as int]));
        }
        if let Some(f) = &d.fix {
            if !(f.span.start > end || f.span.end < start) {
                let q = quick_fix(uri, text, d, f);
                push_item(&mut out, first, q.as_str(), Ghost(xs));
                proof {
                    xs = xs.push(utf8_of(&q));
                }
                first = false;
            }
        }
        k += 1;
    }
    proof {
        assert(ds.subrange(0, k as int) =~= ds);
    }
    let (fixed, count) = doc.apply_fixes(false);
    if count > 0 && !bytes_eq(fixed.as_str().as_bytes(), text.as_bytes()) {
        let a = fix_all(uri, text, fixed.as_str(), count);
        push_item(&mut out, first, a.as_str(), Ghost(xs));
        proof {
            xs = xs.push(utf8_of(&a));
        }
    }
    append(&mut out, "]");
    out
}

// ---------------------------------------------------------------------------
// Reading fields out of a message
// ---------------------------------------------------------------------------

/// `s` from `i` on with every occurrence of `pat` replaced by `rep`, left to
/// right, without overlaps.
pub open spec fn replace_from(s: Seq<u8>, pat: Seq<u8>, rep: Seq<u8>, i: int) -> Seq<u8>
    decreases s.len() - i,
{
    if i >= s.len() || i < 0 || pat.len() == 0 {
        Seq::empty()
    } else if matches_at(s, i, pat) {
        rep + replace_from(s, pat, rep, i + pat.len())
    } else {
        seq![s[i]] + replace_from(s, pat, rep, i + 1)
    }
}

/// The JSON escapes this server undoes in field values: `\/`, `\\`, `\"`,
/// each in a pass of its own.
pub open spec fn unescape_spec(s: Seq<u8>) -> Seq<u8> {
    let a = replace_from(s, lit("\\/"), lit("/"), 0);
    let b = replace_from(a, lit("\\\\"), lit("\\"), 0);
    replace_from(b, lit("\\\""), lit("\""), 0)
}

proof fn lemma_lit_bytes()
    ensures
        lit("\\/") == seq![92u8, 47u8],
        lit("\\\\") == seq![92u8, 92u8],
        lit("\\\"") == seq![92u8, 34u8],
        lit("/") == seq![47u8],
        lit("\\") == seq![92u8],
        lit("\"") == seq![34u8],
{
    reveal_strlit("\\/");
    reveal_strlit("\\\\");
    reveal_strlit("\\\"");
    reveal_strlit("/");
    reveal_strlit("\\");
    reveal_strlit("\"");
    assert(is_ascii("\\/"));
    assert(is_ascii("\\\\"));
    assert(is_ascii("\\\""));
    assert(is_ascii("/"));
    assert(is_ascii("\\"));
    assert(is_ascii("\""));
    is_ascii_spec_bytes("\\/");
    is_ascii_spec_bytes("\\\\");
    is_ascii_spec_bytes("\\\"");
    is_ascii_spec_bytes("/");
    is_ascii_spec_bytes("\\");
    is_ascii_spec_bytes("\"");
    assert(lit("\\/") =~= seq![92u8, 47u8]);
    assert(lit("\\\\") =~= seq![92u8, 92u8]);
    assert(lit("\\\"") =~= seq![92u8, 34u8]);
    assert(lit("/") =~= seq![47u8]);
    assert(lit("\\") =~= seq![92u8]);
    assert(lit("\"") =~= seq![34u8]);
}

/// Replace every two-byte ASCII pattern `pat` in `s` by `rep`.
fn replace_pair(s: &str, pat: &str, rep: &str) -> (r: String)
    requires
        pat.spec_bytes().len() == 2,
        pat.spec_bytes()[0] < 0x80,
        pat.spec_bytes()[1] < 0x80,
    ensures
        utf8_of(&r) == replace_from(s.spec_bytes(), pat.spec_bytes(), rep.spec_bytes(), 0),
{
    let ghost b = s.spec_bytes();
    let ghost p = pat.spec_bytes();
    let bytes = s.as_bytes();
    let pb = pat.as_bytes();
    let n = bytes.len();
    proof {
        encode_utf8_valid_utf8(s@);
        lemma_boundary_ends(b);
    }
    let mut out = new_string();
    let mut run: usize = 0;
    let mut k: usize = 0;
    while k < n
        invariant
            b == s.spec_bytes(),
            p == pat.spec_bytes(),
            bytes@ == b,
            pb@ == p,
            p.len() == 2,
            p[0] < 0x80,
            p[1] < 0x80,
            n == b.len(),
            valid_utf8(b),
            run <= k <= n,
            is_char_boundary(b, run as int),
            utf8_of(&out) + b.subrange(run as int, k as int) + replace_from(b, p, rep.spec_bytes(), k as int)
                == replace_from(b, p, rep.spec_bytes(), 0),
        decreases n - k,
    {
        if k + 1 < n && bytes[k] == pb[0] && bytes[k + 1] == pb[1] {
            proof {
                assert(matches_at(b, k as int, p));
                lemma_boundary_ascii(b, k as int);
                lemma_boundary_after_ascii(b, k + 2);
            }
            let ghost o = utf8_of(&out);
            push_slice_raw(&mut out, s, run, k);
            append(&mut out, rep);
            proof {
                assert(utf8_of(&out) + b.subrange(k + 2, k + 2) + replace_from(b, p, rep.spec_bytes(), k + 2)
                    =~= o + b.subrange(run as int, k as int) + replace_from(b, p, rep.spec_bytes(), k as int));
            }
            run = k + 2;
            k = k + 2;
        } else {
            proof {
                assert(!matches_at(b, k as int, p));
                assert(utf8_of(&out) + b.subrange(run as int, k + 1) + replace_from(b, p, rep.spec_bytes(), k + 1)
                    =~= utf8_of(&out) + b.subrange(run as int, k as int) + replace_from(b, p, rep.spec_bytes(), k as int));
            }
            k += 1;
        }
    }
    push_slice_raw(&mut out, s, run, n);
    proof {
        assert(utf8_of(&out) =~= utf8_of(&out) + replace_from(b, p, rep.spec_bytes(), n as int));
    }
    out
}

/// Undo the `\/`, `\\` and `\"` escapes.
pub fn unescape(s: &str) -> (r: String)
    ensures
        utf8_of(&r) == unescape_spec(s.spec_bytes()),
{
    proof {
        lemma_lit_bytes();
    }
    let a = replace_pair(s, "\\/", "/");
    let b = replace_pair(a.as_str(), "\\\\", "\\");
    replace_pair(b.as_str(), "\\\"", "\"")
}

/// `"key"`, the quoted field name.
pub open spec fn field_pat(key: Seq<u8>) -> Seq<u8> {
    seq![34u8] + key + seq![34u8]
}

/// Where the string value of the field whose name matched at `p` starts:
/// past `"key"`, optional white space, `:`, white space and `"`.
pub open spec fn string_value_at(body: Seq<u8>, after: int) -> Option<int> {
    let r = skip_ws(body, after, body.len() as int);
    if r < body.len() && body[r] == 58 {
        let r2 = skip_ws(body, r + 1, body.len() as int);
        if r2 < body.len() && body[r2] == 34 {
            Some(r2 + 1)
        } else {
            None
        }
    } else {
        None
    }
}

/// The first `"key"` from `from` on that is followed by a string value: that
/// value, up to the next `"`, unescaped.
pub open spec fn field_str_from(body: Seq<u8>, pat: Seq<u8>, from: int) -> Option<Seq<u8>>
    decreases body.len() + 1 - from,
{
    match first_match(body, pat, from) {
        None => None,
        Some(p) => {
            let after = p + pat.len();
            match string_value_at(body, after) {
                Some(q) => {
                    let e = match first_byte(body, 34, q, body.len() as int) {
                        Some(x) => x,
                        None => body.len() as int,
                    };
                    Some(unescape_spec(body.subrange(q, e)))
                },
                None => if from < after <= body.len() {
                    field_str_from(body, pat, after)
                } else {
                    None
                },
            }
        },
    }
}

/// Extract a string field's value. Sufficient for the handful of fields this
/// server reads; not a general JSON parser.
pub fn field_str(body: &str, key: &str) -> (r: Option<String>)
    ensures
        match r {
            Some(v) => field_str_from(body.spec_bytes(), field_pat(key.spec_bytes()), 0) == Some(utf8_of(&v)),
            None => field_str_from(body.spec_bytes(), field_pat(key.spec_bytes()), 0) is None,
        },
{
    let ghost bs = body.spec_bytes();
    let mut pat = new_string();
    push_ascii_byte(&mut pat, 34);
    append(&mut pat, key);
    push_ascii_byte(&mut pat, 34);
    let ghost ps = field_pat(key.spec_bytes());
    proof {
        assert(utf8_of(&pat) =~= ps);
        encode_utf8_valid_utf8(body@);
        lemma_boundary_ends(bs);
    }
    let b = body.as_bytes();
    let pb = pat.as_str().as_bytes();
    let n = b.len();
    let mut from: usize = 0;
    while from <= n
        invariant
            bs == body.spec_bytes(),
            b@ == bs,
            ps == field_pat(key.spec_bytes()),
            pb@ == ps,
            ps.len() >= 2,
            n == bs.len(),
            valid_utf8(bs),
            is_char_boundary(bs, n as int),
            field_str_from(bs, ps, 0) == field_str_from(bs, ps, from as int),
        decreases n + 1 - from,
    {
        let p = match find_lit(b, pb, from) {
            Some(p) => p,
            None => {
                return None;
            },
        };
        proof {
            lemma_first_match(bs, ps, from as int);
        }
        let after = p + pb.len();
        let r = skip_ws_exec(b, after, n);
        if r < n && b[r] == 58 {
            let r2 = skip_ws_exec(b, r + 1, n);
            if r2 < n && b[r2] == 34 {
                let q = r2 + 1;
                let e = match find_byte(b, 34, q, n) {
                    Some(x) => x,
                    None => n,
                };
                proof {
                    lemma_first_byte(bs, 34, q as int, n as int);
                    assert(bs[q - 1] == 34);
                    lemma_boundary_after_ascii(bs, q as int);
                    if e < n {
                        assert(bs[e as int] == 34);
                        lemma_boundary_ascii(bs, e as int);
                    }
                    assert(q <= e);
                }
                let v = substr(body, q, e);
                return Some(unescape(v));
            }
        }
        from = after;
    }
    None
}

/// The first of the bytes `x` and `y` at or after `from`, before `to`.
pub open spec fn first_of_two(b: Seq<u8>, x: u8, y: u8, from: int, to: int) -> Option<int>
    decreases to - from,
{
    if from >= to {
        None
    } else if b[from] == x || b[from] == y {
        Some(from)
    } else {
        first_of_two(b, x, y, from + 1, to)
    }
}

/// A raw (unquoted) field value, such as a numeric request id: what follows
/// the first `"key"`, its colon and white space, up to the next `,` or `}`,
/// trimmed; `None` if that is empty.
pub open spec fn field_raw_spec(body: Seq<u8>, key: Seq<u8>) -> Option<Seq<u8>> {
    let pat = field_pat(key);
    match first_match(body, pat, 0) {
        None => None,
        Some(p) => {
            let r = skip_ws(body, p + pat.len(), body.len() as int);
            if r < body.len() && body[r] == 58 {
                let r2 = skip_ws(body, r + 1, body.len() as int);
                let end = match first_of_two(body, 44, 125, r2, body.len() as int) {
                    Some(x) => x,
                    None => body.len() as int,
                };
                let v = trimmed(body, r2, end);
                if v.0 < v.1 {
                    Some(body.subrange(v.0, v.1))
                } else {
                    None
                }
            } else {
                None
            }
        },
    }
}

/// Extract a raw (unquoted) field value, e.g. a numeric request id.
pub fn field_raw(body: &str, key: &str) -> (r: Option<String>)
    ensures
        match r {
            Some(v) => field_raw_spec(body.spec_bytes(), key.spec_bytes()) == Some(utf8_of(&v)),
            None => field_raw_spec(body.spec_bytes(), key.spec_bytes()) is None,
        },
{
    let ghost bs = body.spec_bytes();
    let mut pat = new_string();
    push_ascii_byte(&mut pat, 34);
    append(&mut pat, key);
    push_ascii_byte(&mut pat, 34);
    let ghost ps = field_pat(key.spec_bytes());
    proof {
        assert(utf8_of(&pat) =~= ps);
        encode_utf8_valid_utf8(body@);
        lemma_boundary_ends(bs);
    }
    let b = body.as_bytes();
    let pb = pat.as_str().as_bytes();
    let n = b.len();
    let p = match find_lit(b, pb, 0) {
        Some(p) => p,
        None => {
            return None;
        },
    };
    proof {
        lemma_first_match(bs, ps, 0);
    }
    let r = skip_ws_exec(b, p + pb.len(), n);
    if !(r < n && b[r] == 58) {
        return None;
    }
    let r2 = skip_ws_exec(b, r + 1, n);
    let mut end = r2;
    while end < n && b[end] != 44 && b[end] != 125
        invariant
            r2 <= end <= n == bs.len(),
            b@ == bs,
            first_of_two(bs, 44, 125, r2 as int, n as int) == first_of_two(bs, 44, 125, end as int, n as int),
        decreases n - end,
    {
        end += 1;
    }
    proof {
        lemma_boundary_after_ascii(bs, r + 1);
        lemma_skip_ws_boundary(bs, r + 1, n as int);
        if end < n {
            lemma_boundary_ascii(bs, end as int);
        }
        lemma_trimmed_ok(bs, r2 as int, end as int);
    }
    let (va, ve) = trim_range(b, r2, end);
    if va < ve {
        let v = substr(body, va, ve);
        let mut o = new_string();
        append(&mut o, v);
        proof {
            assert(utf8_of(&o) =~= bs.subrange(va as int, ve as int));
        }
        Some(o)
    } else {
        None
    }
}

// ---------------------------------------------------------------------------
// The text of a didOpen / didChange message
// ---------------------------------------------------------------------------

/// `char::from_u32`: the character whose scalar value is `v`, or `None` for
/// a surrogate or a value past U+10FFFF, as std documents it.
#[verifier::external_body]
fn char_from_u32(v: u32) -> (r: Option<char>)
    ensures
        r == if v < 0xD800 || (0xE000 <= v && v <= 0x10FFFF) {
            Some(v as char)
        } else {
            None::<char>
        },
{
    char::from_u32(v)
}

/// `String::push`: appends the character `c` to `s`.
#[verifier::external_body]
fn push_char(s: &mut String, c: char)
    ensures
        final(s)@ == old(s)@.push(c),
{
    s.push(c)
}

/// A `"text"` key at `i`: the quoted name, then, after white space, `:`.
pub open spec fn text_key_at(b: Seq<u8>, i: int) -> bool {
    let r = skip_ws(b, i + 6, b.len() as int);
    &&& matches_at(b, i, lit("\"text\""))
    &&& r < b.len()
    &&& b[r] == 58
}

/// The last position at or before `i` where a `"text"` key stands.
pub open spec fn last_text_key(b: Seq<u8>, i: int) -> Option<int>
    decreases i + 1,
{
    if i < 0 {
        None
    } else if text_key_at(b, i) {
        Some(i)
    } else {
        last_text_key(b, i - 1)
    }
}

/// Length of the run of UTF-8 continuation bytes at `i`.
pub open spec fn cont_run(b: Seq<u8>, i: int) -> int
    decreases b.len() - i,
{
    if 0 <= i < b.len() && is_continuation_byte(b[i]) {
        1 + cont_run(b, i + 1)
    } else {
        0
    }
}

/// Past the next `n` characters from `q` (fewer at the end).
pub open spec fn skip_chars(b: Seq<u8>, q: int, n: nat) -> int
    decreases n,
{
    if n == 0 || q < 0 || q >= b.len() {
        q
    } else {
        skip_chars(b, q + 1 + cont_run(b, q + 1), (n - 1) as nat)
    }
}

pub open spec fn is_hex(c: u8) -> bool {
    (48 <= c && c <= 57) || (97 <= c && c <= 102) || (65 <= c && c <= 70)
}

pub open spec fn hex_val(c: u8) -> int {
    if c <= 57 {
        c - 48
    } else if c <= 70 {
        c - 55
    } else {
        c - 87
    }
}

pub open spec fn all_hex(b: Seq<u8>, a: int, e: int) -> bool {
    forall|q: int| a <= q < e ==> is_hex(#[trigger] b[q])
}

pub open spec fn hex_value(b: Seq<u8>, a: int, e: int) -> int
    decreases e - a,
{
    if e <= a {
        0
    } else {
        hex_value(b, a, e - 1) * 16 + hex_val(b[e - 1])
    }
}

/// What `u32::from_str_radix(b[a..e], 16)` accepts: an optional `+`, then
/// one or more hexadecimal digits, with a value that fits a `u32`.
pub open spec fn radix16(b: Seq<u8>, a: int, e: int) -> Option<int> {
    if e <= a {
        None
    } else if (b[a] == 43 || b[a] == 45) && e - a == 1 {
        None
    } else {
        let d = if b[a] == 43 {
            a + 1
        } else {
            a
        };
        if all_hex(b, d, e) && hex_value(b, d, e) <= u32::MAX {
            Some(hex_value(b, d, e))
        } else {
            None
        }
    }
}

pub open spec fn is_scalar_value(v: int) -> bool {
    v < 0xD800 || (0xE000 <= v && v <= 0x10FFFF)
}

/// The string value starting at `q`, up to the closing `"`, with its escapes
/// decoded: `\n`, `\r`, `\t`, `\"`, `\\`, `\uXXXX` (dropped when not a
/// valid character), and any other escaped character as itself.
pub open spec fn decode_text(b: Seq<u8>, q: int) -> Seq<u8>
    decreases b.len() - q,
{
    if q < 0 || q >= b.len() || b[q] == 34 {
        Seq::empty()
    } else if b[q] == 92 {
        if q + 1 >= b.len() {
            Seq::empty()
        } else {
            let c = b[q + 1];
            if c == 110 {
                seq![10u8] + decode_text(b, q + 2)
            } else if c == 114 {
                seq![13u8] + decode_text(b, q + 2)
            } else if c == 116 {
                seq![9u8] + decode_text(b, q + 2)
            } else if c == 34 || c == 92 {
                seq![c] + decode_text(b, q + 2)
            } else if c == 117 {
                let e = skip_chars(b, q + 2, 4);
                let piece = match radix16(b, q + 2, e) {
                    Some(v) => if is_scalar_value(v) {
                        encode_utf8(seq![v as char])
                    } else {
                        Seq::empty()
                    },
                    None => Seq::empty(),
                };
                if q + 2 <= e <= b.len() {
                    piece + decode_text(b, e)
                } else {
                    piece
                }
            } else {
                seq![c] + decode_text(b, q + 2)
            }
        }
    } else {
        seq![b[q]] + decode_text(b, q + 1)
    }
}

/// The `text` field of a message: the string value of the last `"text"`
/// that is followed by `:`, so that a value holding the word in quotes is
/// never taken for the key.
pub open spec fn extract_text_spec(body: Seq<u8>) -> Option<Seq<u8>> {
    let key = lit("\"text\"");
    match last_text_key(body, body.len() - key.len()) {
        None => None,
        Some(p) => {
            let r = skip_ws(body, p + key.len(), body.len() as int);
            if r < body.len() && body[r] == 58 {
                let r2 = skip_ws(body, r + 1, body.len() as int);
                if r2 < body.len() && body[r2] == 34 {
                    Some(decode_text(body, r2 + 1))
                } else {
                    None
                }
            } else {
                None
            }
        },
    }
}

proof fn lemma_hex_value_mono(b: Seq<u8>, a: int, m: int, e: int)
    requires
        a <= m <= e,
        all_hex(b, a, e),
    ensures
        0 <= hex_value(b, a, m) <= hex_value(b, a, e),
    decreases e - a,
{
    if m < e {
        lemma_hex_value_mono(b, a, m, e - 1);
        assert(is_hex(b[e - 1]));
    } else if a < e {
        lemma_hex_value_mono(b, a, a, e - 1);
        assert(is_hex(b[e - 1]));
    }
}

/// `u32::from_str_radix(b[a..e], 16)`.
fn parse_hex(b: &[u8], a: usize, e: usize) -> (r: Option<u32>)
    requires
        a <= e <= b.len(),
    ensures
        match r {
            Some(v) => radix16(b@, a as int, e as int) == Some(v as int),
            None => radix16(b@, a as int, e as int) is None,
        },
{
    if e <= a {
        return None;
    }
    if (b[a] == 43 || b[a] == 45) && e - a == 1 {
        return None;
    }
    let d = if b[a] == 43 {
        a + 1
    } else {
        a
    };
    let mut k = d;
    while k < e
        invariant
            d <= k <= e <= b.len(),
            all_hex(b@, d as int, k as int),
            a < e,
            d == (if b@[a as int] == 43 { a + 1 } else { a as int }),
            !((b@[a as int] == 43 || b@[a as int] == 45) && e - a == 1),
        decreases e - k,
    {
        let c = b[k];
        if !((48 <= c && c <= 57) || (97 <= c && c <= 102) || (65 <= c && c <= 70)) {
            proof {
                assert(!is_hex(b@[k as int]));
                assert(!all_hex(b@, d as int, e as int));
            }
            return None;
        }
        k += 1;
    }
    let mut v: u32 = 0;
    let mut j = d;
    while j < e
        invariant
            d <= j <= e <= b.len(),
            all_hex(b@, d as int, e as int),
            v == hex_value(b@, d as int, j as int),
            a < e,
            d == (if b@[a as int] == 43 { a + 1 } else { a as int }),
            !((b@[a as int] == 43 || b@[a as int] == 45) && e - a == 1),
        decreases e - j,
    {
        let c = b[j];
        assert(is_hex(b@[j as int]));
        let x: u32 = if c <= 57 {
            (c - 48) as u32
        } else if c <= 70 {
            (c - 55) as u32
        } else {
            (c - 87) as u32
        };
        match v.checked_mul(16) {
            Some(t) => match t.checked_add(x) {
                Some(w) => {
                    v = w;
                },
                None => {
                    proof {
                        lemma_hex_value_mono(b@, d as int, j + 1, e as int);
                    }
                    return None;
                },
            },
            None => {
                proof {
                    lemma_hex_value_mono(b@, d as int, j + 1, e as int);
                }
                return None;
            },
        }
        j += 1;
    }
    Some(v)
}

/// Past the next `n` characters of `b` from `q`.
fn skip_chars_exec(b: &[u8], q: usize, n: usize) -> (r: usize)
    requires
        q <= b.len(),
    ensures
        r as int == skip_chars(b@, q as int, n as nat),
        q <= r <= b.len(),
{
    let mut p = q;
    let mut left = n;
    while left > 0 && p < b.len()
        invariant
            q <= p <= b.len(),
            left <= n,
            skip_chars(b@, q as int, n as nat) == skip_chars(b@, p as int, left as nat),
        decreases left,
    {
        let mut t = p + 1;
        while t < b.len() && 0x80 <= b[t] && b[t] <= 0xbf
            invariant
                p + 1 <= t <= b.len(),
                cont_run(b@, p + 1) == (t - (p + 1)) + cont_run(b@, t as int),
            decreases b.len() - t,
        {
            t += 1;
        }
        p = t;
        left -= 1;
    }
    p
}

/// Pull `text` out of a didOpen/didChange payload.
///
/// `text` is the last string field in both shapes, and its value may contain
/// escaped quotes, so it is scanned with escape awareness rather than split
/// on the next `"`.
pub fn extract_text(body: &str) -> (r: Option<String>)
    ensures
        match r {
            Some(v) => extract_text_spec(body.spec_bytes()) == Some(utf8_of(&v)),
            None => extract_text_spec(body.spec_bytes()) is None,
        },
{
    let ghost bs = body.spec_bytes();
    let b = body.as_bytes();
    let n = b.len();
    let key = "\"text\"";
    proof {
        encode_utf8_valid_utf8(body@);
        lemma_boundary_ends(bs);
    }
    proof {
        reveal_strlit("\"text\"");
        assert(is_ascii("\"text\""));
        is_ascii_spec_bytes("\"text\"");
    }
    if n < key.len() {
        proof {
            assert(last_text_key(bs, bs.len() - lit(key).len()) is None);
        }
        return None;
    }
    let kb = key.as_bytes();
    let mut i = n - kb.len();
    let mut p: usize = 0;
    let mut found = false;
    loop
        invariant_except_break
            !found,
        invariant
            b@ == bs,
            kb@ == lit(key),
            kb@ == lit("\"text\""),
            kb@.len() == 6,
            n == bs.len(),
            i + kb@.len() <= n,
            last_text_key(bs, bs.len() - lit(key).len()) == last_text_key(bs, i as int),
        ensures
            found ==> last_text_key(bs, bs.len() - lit(key).len()) == Some(p as int),
            found ==> p + kb@.len() <= n,
            !found ==> last_text_key(bs, bs.len() - lit(key).len()) is None,
        decreases i,
    {
        if bytes_match_at(b, i, kb) {
            let c = skip_ws_exec(b, i + kb.len(), n);
            if c < n && b[c] == 58 {
                p = i;
                found = true;
                proof {
                    assert(text_key_at(bs, i as int));
                    assert(last_text_key(bs, i as int) == Some(i as int));
                }
                break;
            }
        }
        proof {
            assert(!text_key_at(bs, i as int));
        }
        if i == 0 {
            proof {
                assert(last_text_key(bs, -1) is None);
                assert(last_text_key(bs, 0) is None);
            }
            break;
        }
        i -= 1;
    }
    if !found {
        return None;
    }
    let r = skip_ws_exec(b, p + kb.len(), n);
    if !(r < n && b[r] == 58) {
        return None;
    }
    let r2 = skip_ws_exec(b, r + 1, n);
    if !(r2 < n && b[r2] == 34) {
        return None;
    }
    let start = r2 + 1;
    proof {
        lemma_boundary_after_ascii(bs, start as int);
        reveal_strlit("\n");
        reveal_strlit("\r");
        reveal_strlit("\t");
    }
    let mut out = new_string();
    let mut run = start;
    let mut q = start;
    let mut done = false;
    while !done && q < n
        invariant
            bs == body.spec_bytes(),
            b@ == bs,
            n == bs.len(),
            valid_utf8(bs),
            is_char_boundary(bs, n as int),
            start <= run <= q <= n,
            is_char_boundary(bs, run as int),
            !done ==> utf8_of(&out) + bs.subrange(run as int, q as int) + decode_text(bs, q as int) == decode_text(bs, start as int),
            done ==> utf8_of(&out) == decode_text(bs, start as int),
        decreases n - q + (if done { 0int } else { 1int }),
    {
        let c = b[q];
        if c == 34 {
            proof {
                lemma_boundary_ascii(bs, q as int);
            }
            push_slice_raw(&mut out, body, run, q);
            done = true;
        } else if c == 92 {
            proof {
                lemma_boundary_ascii(bs, q as int);
            }
            let ghost o = utf8_of(&out);
            push_slice_raw(&mut out, body, run, q);
            if q + 1 >= n {
                done = true;
            } else {
                let e = b[q + 1];
                if e == 110 || e == 114 || e == 116 || e == 34 || e == 92 {
                    let x: u8 = if e == 110 {
                        10
                    } else if e == 114 {
                        13
                    } else if e == 116 {
                        9
                    } else {
                        e
                    };
                    push_ascii_byte(&mut out, x);
                    proof {
                        lemma_boundary_after_ascii(bs, q + 2);
                        assert(utf8_of(&out) + bs.subrange(q + 2, q + 2) + decode_text(bs, q + 2) =~= o
                            + bs.subrange(run as int, q as int) + decode_text(bs, q as int));
                    }
                    run = q + 2;
                    q = q + 2;
                } else if e == 117 {
                    let stop = skip_chars_exec(b, q + 2, 4);
                    let ghost o2 = utf8_of(&out);
                    match parse_hex(b, q + 2, stop) {
                        Some(v) => match char_from_u32(v) {
                            Some(ch) => {
                                let ghost before = out@;
                                push_char(&mut out, ch);
                                proof {
                                    lemma_encode_concat(before, seq![ch]);
                                    assert(out@ =~= before + seq![ch]);
                                }
                            },
                            None => {},
                        },
                        None => {},
                    }
                    proof {
                        lemma_boundary_after_ascii(bs, q + 2);
                        if q + 2 < n {
                            is_char_boundary_iff_not_is_continuation_byte(bs, q + 2);
                        }
                        lemma_skip_chars_lead(bs, q + 2, 4);
                        if stop < n {
                            is_char_boundary_iff_not_is_continuation_byte(bs, stop as int);
                        }
                        assert(utf8_of(&out) + bs.subrange(stop as int, stop as int) + decode_text(bs, stop as int) =~= o
                            + bs.subrange(run as int, q as int) + decode_text(bs, q as int));
                    }
                    run = stop;
                    q = stop;
                } else {
                    proof {
                        lemma_boundary_after_ascii(bs, q + 1);
                        assert(utf8_of(&out) + bs.subrange(q + 1, q + 2) + decode_text(bs, q + 2) =~= o
                            + bs.subrange(run as int, q as int) + decode_text(bs, q as int));
                    }
                    run = q + 1;
                    q = q + 2;
                }
            }
        } else {
            proof {
                assert(utf8_of(&out) + bs.subrange(run as int, q + 1) + decode_text(bs, q + 1) =~= utf8_of(&out)
                    + bs.subrange(run as int, q as int) + decode_text(bs, q as int));
            }
            q += 1;
        }
    }
    if !done {
        push_slice_raw(&mut out, body, run, q);
    }
    Some(out)
}

/// Where `skip_chars` stops, inside the text, no continuation byte follows.
proof fn lemma_skip_chars_lead(b: Seq<u8>, q: int, n: nat)
    requires
        0 <= q,
        q < b.len() ==> !is_continuation_byte(b[q]),
    ensures
        skip_chars(b, q, n) < b.len() ==> !is_continuation_byte(b[skip_chars(b, q, n)]),
        q <= skip_chars(b, q, n),
    decreases n,
{
    if n > 0 && q < b.len() {
        lemma_cont_run(b, q + 1);
        lemma_skip_chars_lead(b, q + 1 + cont_run(b, q + 1), (n - 1) as nat);
    }
}

proof fn lemma_cont_run(b: Seq<u8>, i: int)
    requires
        0 <= i,
    ensures
        0 <= cont_run(b, i),
        i + cont_run(b, i) < b.len() ==> !is_continuation_byte(b[i + cont_run(b, i)]),
    decreases b.len() - i,
{
    if 0 <= i < b.len() && is_continuation_byte(b[i]) {
        lemma_cont_run(b, i + 1);
    }
}

// ---------------------------------------------------------------------------
// Framing
// ---------------------------------------------------------------------------

/// What `String::from_utf8_lossy` makes of `b`: `b` itself when it is valid
/// UTF-8; otherwise each invalid sequence becomes U+FFFD.
pub uninterp spec fn lossy_utf8(b: Seq<u8>) -> Seq<u8>;

/// `String::from_utf8_lossy(b).into_owned()`. Its contract claims what std
/// documents: valid UTF-8 comes back unchanged. What replaces invalid
/// sequences is left unsaid beyond naming the result.
#[verifier::external_body]
fn decode_lossy(b: &[u8]) -> (r: String)
    ensures
        utf8_of(&r) == lossy_utf8(b@),
        valid_utf8(b@) ==> utf8_of(&r) == b@,
{
    String::from_utf8_lossy(b).into_owned()
}

/// What `usize::from_str` accepts in `b[a..e]`: an optional `+`, then one
/// or more decimal digits, with a value that fits a `usize`.
pub open spec fn parse_usize_spec(b: Seq<u8>, a: int, e: int) -> Option<int> {
    if e <= a {
        None
    } else if (b[a] == 43 || b[a] == 45) && e - a == 1 {
        None
    } else {
        let d = if b[a] == 43 {
            a + 1
        } else {
            a
        };
        if (forall|q: int| d <= q < e ==> is_digit(#[trigger] b[q])) && dec_value(b, d, e) <= usize::MAX {
            Some(dec_value(b, d, e))
        } else {
            None
        }
    }
}

/// `usize::from_str` on `b[a..e]`.
fn parse_usize(b: &[u8], a: usize, e: usize) -> (r: Option<usize>)
    requires
        a <= e <= b.len(),
    ensures
        match r {
            Some(v) => parse_usize_spec(b@, a as int, e as int) == Some(v as int),
            None => parse_usize_spec(b@, a as int, e as int) is None,
        },
{
    if e <= a {
        return None;
    }
    if (b[a] == 43 || b[a] == 45) && e - a == 1 {
        return None;
    }
    let d = if b[a] == 43 {
        a + 1
    } else {
        a
    };
    let mut k = d;
    while k < e
        invariant
            d <= k <= e <= b.len(),
            forall|q: int| d <= q < k ==> is_digit(#[trigger] b@[q]),
            a < e,
            d == (if b@[a as int] == 43 { a + 1 } else { a as int }),
            !((b@[a as int] == 43 || b@[a as int] == 45) && e - a == 1),
        decreases e - k,
    {
        if !(48 <= b[k] && b[k] <= 57) {
            proof {
                assert(!is_digit(b@[k as int]));
            }
            return None;
        }
        k += 1;
    }
    parse_digits(b, d, e)
}

/// End of the line that starts at `p`: past its `\n`, or the end.
pub open spec fn line_after(b: Seq<u8>, p: int) -> int {
    match first_byte(b, 10, p, b.len() as int) {
        Some(q) => q + 1,
        None => b.len() as int,
    }
}

/// The content length after the header line `b[p..te]` (already trimmed at
/// its end), given the one so far: a `Content-Length:` header sets it, to 0
/// when its value does not parse; other headers leave it.
pub open spec fn header_length(b: Seq<u8>, p: int, te: int, cur: int) -> int {
    let key = lit("Content-Length:");
    if p + key.len() <= te && matches_at(b, p, key) {
        let v = trimmed(b, p + key.len(), te);
        match parse_usize_spec(b, v.0, v.1) {
            Some(n) => n,
            None => 0,
        }
    } else {
        cur
    }
}

/// Header lines from `p` on, up to a blank one: where the body starts and
/// its length. `None` when the input ends first.
pub open spec fn header_scan(b: Seq<u8>, p: int, len: int) -> Option<(int, int)>
    decreases b.len() - p,
{
    if p < 0 || p >= b.len() {
        None
    } else {
        let e = line_after(b, p);
        let te = skip_ws_back(b, p, e);
        if te <= p {
            Some((e, len))
        } else if p < e <= b.len() {
            header_scan(b, e, header_length(b, p, te, len))
        } else {
            None
        }
    }
}

/// The text of the bytes `p`: `p` itself when it is valid UTF-8, else std's
/// lossy decoding of it.
pub open spec fn decoded(p: Seq<u8>) -> Seq<u8> {
    if valid_utf8(p) {
        p
    } else {
        lossy_utf8(p)
    }
}

/// The first `Content-Length`-framed message at the start of `b`: its body
/// and how many bytes the message took. `None` when `b` does not yet hold a
/// whole message.
pub open spec fn read_message_spec(b: Seq<u8>) -> Option<(Seq<u8>, int)> {
    match header_scan(b, 0, 0) {
        None => None,
        Some((s, n)) => if n == 0 {
            Some((Seq::empty(), s))
        } else if s + n <= b.len() {
            Some((decoded(b.subrange(s, s + n)), s + n))
        } else {
            None
        },
    }
}

/// Read one `Content-Length`-framed message from the start of `input`,
/// returning its body and the number of bytes it took, or `None` if
/// `input` does not hold a whole message yet.
pub fn read_message(input: &[u8]) -> (r: Option<(String, usize)>)
    ensures
        match r {
            Some((body, used)) => read_message_spec(input@) == Some((utf8_of(&body), used as int)),
            None => read_message_spec(input@) is None,
        },
{
    let ghost b = input@;
    let n = input.len();
    let key = "Content-Length:";
    let kb = key.as_bytes();
    let mut p: usize = 0;
    let mut len: usize = 0;
    let mut start: usize = 0;
    loop
        invariant
            b == input@,
            n == b.len(),
            kb@ == lit("Content-Length:"),
            p <= n,
            header_scan(b, 0, 0) == header_scan(b, p as int, len as int),
        ensures
            header_scan(b, 0, 0) == Some((start as int, len as int)),
            start <= n,
        decreases n - p,
    {
        if p >= n {
            return None;
        }
        proof {
            lemma_first_byte(b, 10, p as int, n as int);
        }
        let e = match find_byte(input, 10, p, n) {
            Some(q) => q + 1,
            None => n,
        };
        let te = skip_ws_back_exec(input, p, e);
        proof {
            assert(e as int == line_after(b, p as int));
            assert(p < e <= n);
        }
        if te <= p {
            start = e;
            break;
        }
        let ghost old_len = len;
        if kb.len() <= te - p && bytes_match_at(input, p, kb) {
            let (va, ve) = trim_range(input, p + kb.len(), te);
            len = match parse_usize(input, va, ve) {
                Some(v) => v,
                None => 0,
            };
        }
        proof {
            assert(len as int == header_length(b, p as int, te as int, old_len as int));
            assert(header_scan(b, p as int, old_len as int) == header_scan(b, e as int, len as int));
        }
        p = e;
    }
    if len == 0 {
        let empty = new_string();
        return Some((empty, start));
    }
    if len > n - start {
        return None;
    }
    let mut buf: Vec<u8> = Vec::new();
    let mut k = start;
    while k < start + len
        invariant
            b == input@,
            start <= k <= start + len <= n == b.len(),
            buf@ == b.subrange(start as int, k as int),
        decreases start + len - k,
    {
        buf.push(input[k]);
        proof {
            assert(b.subrange(start as int, k + 1) =~= b.subrange(start as int, k as int).push(b[k as int]));
        }
        k += 1;
    }
    let body = decode_lossy(buf.as_slice());
    Some((body, start + len))
}

/// A message framed for the wire: a `Content-Length` header, a blank line,
/// and the payload.
pub open spec fn frame_spec(payload: Seq<u8>) -> Seq<u8> {
    lit("Content-Length: ") + dec(payload.len()) + lit("\r\n\r\n") + payload
}

/// Frame `payload` for the wire.
pub fn frame_message(payload: &str) -> (r: String)
    ensures
        utf8_of(&r) == frame_spec(payload.spec_bytes()),
{
    let mut o = new_string();
    append(&mut o, "Content-Length: ");
    let n = payload.as_bytes().len();
    push_decimal(&mut o, n);
    append(&mut o, "\r\n\r\n");
    append(&mut o, payload);
    proof {
        assert(n == payload.spec_bytes().len());
        assert(utf8_of(&o) =~= frame_spec(payload.spec_bytes()));
    }
    o
}

/// A response to request `id` (`null` without one) carrying `result`.
pub open spec fn respond_spec(id: Option<Seq<u8>>, result: Seq<u8>) -> Seq<u8> {
    lit("{\"jsonrpc\":\"2.0\",\"id\":") + match id {
        Some(x) => x,
        None => lit("null"),
    } + lit(",\"result\":") + result + lit("}")
}

/// The response to request `id` carrying `result`, ready to frame.
pub fn respond(id: Option<&str>, result: &str) -> (r: String)
    ensures
        utf8_of(&r) == respond_spec(
            match id {
                Some(x) => Some(x.spec_bytes()),
                None => None,
            },
            result.spec_bytes(),
        ),
{
    let id = match id {
        Some(x) => x,
        None => "null",
    };
    let mut o = new_string();
    append(&mut o, "{\"jsonrpc\":\"2.0\",\"id\":");
    append(&mut o, id);
    append(&mut o, ",\"result\":");
    append(&mut o, result);
    append(&mut o, "}");
    o
}

/// A notification made of `inner`'s fields spliced in after `"jsonrpc"`:
/// at most one `{` and one `}` are stripped from `inner`.
pub open spec fn notify_spec(inner: Seq<u8>) -> Seq<u8> {
    let a: int = if inner.len() > 0 && inner[0] == 123 {
        1
    } else {
        0
    };
    let e: int = if inner.len() > a && inner[inner.len() - 1] == 125 {
        inner.len() - 1
    } else {
        inner.len() as int
    };
    lit("{\"jsonrpc\":\"2.0\",") + inner.subrange(a, e) + lit("}")
}

/// The notification for `inner`, ready to frame.
///
/// Strips at most one brace at each end: stripping every trailing brace
/// would truncate a nested payload into invalid JSON.
pub fn notify(inner: &str) -> (r: String)
    ensures
        utf8_of(&r) == notify_spec(inner.spec_bytes()),
{
    let ghost bs = inner.spec_bytes();
    let b = inner.as_bytes();
    let n = b.len();
    proof {
        encode_utf8_valid_utf8(inner@);
        lemma_boundary_ends(bs);
    }
    let a: usize = if n > 0 && b[0] == 123 {
        1
    } else {
        0
    };
    let e: usize = if n > a && b[n - 1] == 125 {
        n - 1
    } else {
        n
    };
    proof {
        if a == 1 {
            lemma_boundary_after_ascii(bs, 1);
        }
        if e < n {
            lemma_boundary_ascii(bs, e as int);
        }
    }
    let mut o = new_string();
    append(&mut o, "{\"jsonrpc\":\"2.0\",");
    push_slice_raw(&mut o, inner, a, e);
    append(&mut o, "}");
    proof {
        assert(utf8_of(&o) =~= notify_spec(bs));
    }
    o
}

/// The diagnostics of `b` for `uri`, as a notification's fields.
pub open spec fn publish_spec(uri: Seq<u8>, b: Seq<u8>) -> Seq<u8> {
    let ds = check_spec(b, lex_spec(b));
    lit("{\"method\":\"textDocument/publishDiagnostics\",\"params\":{\"uri\":") + json_quote(uri) + lit(
        ",\"diagnostics\":[",
    ) + join_commas(ds.map_values(|d: DiagnosticView| diagnostic_json_spec(b, d))) + lit("]}}")
}

/// Lint `text` and build the `publishDiagnostics` notification for `uri`.
pub fn publish(uri: &str, text: &str) -> (r: String)
    ensures
        utf8_of(&r) == publish_spec(uri.spec_bytes(), text.spec_bytes()),
{
    let ghost b = text.spec_bytes();
    let doc = Document::parse(text);
    let diagnostics = doc.diagnostics();
    let ghost ds = views(diagnostics@);
    let ghost items = ds.map_values(|d: DiagnosticView| diagnostic_json_spec(b, d));
    proof {
        assert(doc.bytes() == b);
    }
    let mut out = new_string();
    append(&mut out, "{\"method\":\"textDocument/publishDiagnostics\",\"params\":{\"uri\":");
    let u = json_str(uri);
    append(&mut out, u.as_str());
    append(&mut out, ",\"diagnostics\":[");
    let ghost head = utf8_of(&out);
    let mut k: usize = 0;
    while k < diagnostics.len()
        invariant
            b == text.spec_bytes(),
            ds == views(diagnostics@),
            items == ds.map_values(|d: DiagnosticView| diagnostic_json_spec(b, d)),
            reports_ok(b, ds),
            k <= ds.len(),
            utf8_of(&out) == head + join_commas(items.subrange(0, k as int)),
        decreases diagnostics.len() - k,
    {
        let d = &diagnostics[k];
        proof {
            assert(report_ok(b, ds[k as int]));
            assert(ds[k as int] == d@);
        }
        let j = diagnostic_json(text, d);
        let ghost o = utf8_of(&out);
        if k > 0 {
            append(&mut out, ",");
        }
        append(&mut out, j.as_str());
        proof {
            let xs = items.subrange(0, k as int);
            assert(items.subrange(0, k + 1) =~= xs.push(utf8_of(&j)));
            lemma_join_push(xs, utf8_of(&j));
            assert(utf8_of(&out) =~= head + join_commas(items.subrange(0, k + 1)));
        }
        k += 1;
    }
    append(&mut out, "]}}");
    proof {
        assert(items.subrange(0, k as int) =~= items);
        assert(utf8_of(&out) =~= publish_spec(uri.spec_bytes(), b));
    }
    out
}

proof fn lemma_units_split(b: Seq<u8>, a: int, m: int, e: int)
    requires
        a <= m <= e,
    ensures
        utf16_units(b, a, e) == utf16_units(b, a, m) + utf16_units(b, m, e),
    decreases e - m,
{
    if m < e {
        lemma_units_split(b, a, m, e - 1);
    }
}

proof fn lemma_units_shift(b: Seq<u8>, k: int, a: int, e: int)
    requires
        0 <= k <= a <= e <= b.len(),
    ensures
        utf16_units(b, a, e) == utf16_units(b.subrange(k, b.len() as int), a - k, e - k),
    decreases e - a,
{
    if a < e {
        lemma_units_shift(b, k, a, e - 1);
        assert(b.subrange(k, b.len() as int)[e - k - 1] == b[e - 1]);
    }
}

/// In UTF-8 a character takes at least as many bytes as it takes UTF-16
/// units, so a text's UTF-16 length never exceeds its byte length.
proof fn lemma_units_valid(b: Seq<u8>)
    requires
        valid_utf8(b),
    ensures
        utf16_units(b, 0, b.len() as int) <= b.len(),
    decreases b.len(),
{
    if b.len() > 0 {
        let l = length_of_first_scalar(b);
        let p = pop_first_scalar(b);
        assert(1 <= l <= 4 && l <= b.len());
        lemma_units_valid(p);
        lemma_units_split(b, 0, l, b.len() as int);
        lemma_units_shift(b, l, l, b.len() as int);
        assert(p == b.subrange(l, b.len() as int));
        assert(utf16_units(b, 0, 0) == 0);
        assert(utf16_units(b, 0, 1) <= 2);
        if l == 1 {
            assert(b[0] < 0x80);
        } else if l == 2 {
            assert(utf16_units(b, 0, 1) == 1);
            assert(is_continuation_byte(b[1]));
        } else if l == 3 {
            assert(utf16_units(b, 0, 1) == 1);
            assert(is_continuation_byte(b[1]));
            assert(is_continuation_byte(b[2]));
            assert(utf16_units(b, 0, 2) == 1);
        } else {
            assert(is_continuation_byte(b[1]));
            assert(is_continuation_byte(b[2]));
            assert(is_continuation_byte(b[3]));
            assert(utf16_units(b, 0, 2) == utf16_units(b, 0, 1));
            assert(utf16_units(b, 0, 3) == utf16_units(b, 0, 1));
        }
    }
}

/// The UTF-16 length of any stretch of a text is at most the text's byte
/// length.
proof fn lemma_units_fit(b: Seq<u8>, a: int, e: int)
    requires
        valid_utf8(b),
        0 <= a <= e <= b.len(),
    ensures
        0 <= utf16_units(b, a, e) <= b.len(),
{
    lemma_units_valid(b);
    lemma_units_split(b, 0, a, b.len() as int);
    lemma_units_split(b, a, e, b.len() as int);
    lemma_units_bounded(b, 0, a);
    lemma_units_bounded(b, a, e);
    lemma_units_bounded(b, e, b.len() as int);
}

// ---------------------------------------------------------------------------
// The server's state and its answer to each message
// ---------------------------------------------------------------------------

/// The map from URI to text that a list of entries stands for: a later
/// entry for a URI overrides an earlier one.
pub open spec fn entries_map(es: Seq<(Seq<u8>, Seq<u8>)>) -> Map<Seq<u8>, Seq<u8>>
    decreases es.len(),
{
    if es.len() == 0 {
        Map::empty()
    } else {
        entries_map(es.drop_last()).insert(es.last().0, es.last().1)
    }
}

pub open spec fn entry_views(es: Seq<(String, String)>) -> Seq<(Seq<u8>, Seq<u8>)> {
    es.map_values(|e: (String, String)| (utf8_of(&e.0), utf8_of(&e.1)))
}

/// The documents the client has open: each URI with its latest text.
pub struct Docs {
    entries: Vec<(String, String)>,
}

impl View for Docs {
    type V = Map<Seq<u8>, Seq<u8>>;

    closed spec fn view(&self) -> Map<Seq<u8>, Seq<u8>> {
        entries_map(entry_views(self.entries@))
    }
}

proof fn lemma_entries_without(es: Seq<(Seq<u8>, Seq<u8>)>, kept: Seq<(Seq<u8>, Seq<u8>)>, k: Seq<u8>)
    requires
        kept == es.filter(|e: (Seq<u8>, Seq<u8>)| e.0 != k),
    ensures
        entries_map(kept) == entries_map(es).remove(k),
    decreases es.len(),
{
    reveal(Seq::filter);
    if es.len() == 0 {
        assert(kept =~= Seq::<(Seq<u8>, Seq<u8>)>::empty());
        assert(entries_map(es).remove(k) =~= Map::empty());
        assert(entries_map(kept) =~= Map::empty());
    } else {
        let p = es.drop_last();
        let kp = p.filter(|e: (Seq<u8>, Seq<u8>)| e.0 != k);
        lemma_entries_without(p, kp, k);
        assert(es.filter(|e: (Seq<u8>, Seq<u8>)| e.0 != k) == if es.last().0 != k {
            kp.push(es.last())
        } else {
            kp
        });
        if es.last().0 == k {
            assert(kept == kp);
            assert(entries_map(es).remove(k) =~= entries_map(p).remove(k));
        } else {
            assert(kept == kp.push(es.last()));
            assert(kept.drop_last() =~= kp);
            assert(entries_map(es).remove(k) =~= entries_map(p).remove(k).insert(es.last().0, es.last().1));
        }
    }
}

proof fn lemma_entries_last(es: Seq<(Seq<u8>, Seq<u8>)>, i: int, k: Seq<u8>)
    requires
        0 <= i < es.len(),
        es[i].0 == k,
        forall|j: int| i < j < es.len() ==> (#[trigger] es[j]).0 != k,
    ensures
        entries_map(es).contains_key(k),
        entries_map(es)[k] == es[i].1,
    decreases es.len(),
{
    if i < es.len() - 1 {
        let p = es.drop_last();
        assert forall|j: int| i < j < p.len() implies (#[trigger] p[j]).0 != k by {
            assert(p[j] == es[j]);
        }
        lemma_entries_last(p, i, k);
    }
}

proof fn lemma_entries_absent(es: Seq<(Seq<u8>, Seq<u8>)>, k: Seq<u8>)
    requires
        forall|j: int| 0 <= j < es.len() ==> (#[trigger] es[j]).0 != k,
    ensures
        !entries_map(es).contains_key(k),
    decreases es.len(),
{
    if es.len() > 0 {
        let p = es.drop_last();
        assert forall|j: int| 0 <= j < p.len() implies (#[trigger] p[j]).0 != k by {
            assert(p[j] == es[j]);
        }
        lemma_entries_absent(p, k);
    }
}

impl Docs {
    pub fn new() -> (r: Self)
        ensures
            r@ == Map::<Seq<u8>, Seq<u8>>::empty(),
    {
        let r = Docs { entries: Vec::new() };
        proof {
            assert(entry_views(r.entries@) =~= Seq::<(Seq<u8>, Seq<u8>)>::empty());
        }
        r
    }

    /// The text of `uri`, if it is open.
    pub fn get(&self, uri: &str) -> (r: Option<&String>)
        ensures
            match r {
                Some(t) => self@.contains_key(uri.spec_bytes()) && self@[uri.spec_bytes()] == utf8_of(t),
                None => !self@.contains_key(uri.spec_bytes()),
            },
    {
        let ghost es = entry_views(self.entries@);
        let mut i = self.entries.len();
        while i > 0
            invariant
                es == entry_views(self.entries@),
                i <= es.len(),
                forall|j: int| i <= j < es.len() ==> (#[trigger] es[j]).0 != uri.spec_bytes(),
            decreases i,
        {
            let e = &self.entries[i - 1];
            if bytes_eq(e.0.as_str().as_bytes(), uri.as_bytes()) {
                proof {
                    assert(es[i - 1] == (utf8_of(&e.0), utf8_of(&e.1)));
                    lemma_entries_last(es, i - 1, uri.spec_bytes());
                }
                return Some(&e.1);
            }
            proof {
                assert(es[i - 1] == (utf8_of(&e.0), utf8_of(&e.1)));
            }
            i -= 1;
        }
        proof {
            lemma_entries_absent(es, uri.spec_bytes());
        }
        None
    }

    /// Forget `uri`.
    pub fn remove(&mut self, uri: &str)
        ensures
            final(self)@ == old(self)@.remove(uri.spec_bytes()),
    {
        let ghost es = entry_views(self.entries@);
        let ghost k = uri.spec_bytes();
        let mut kept: Vec<(String, String)> = Vec::new();
        let mut i: usize = 0;
        while i < self.entries.len()
            invariant
                es == entry_views(self.entries@),
                k == uri.spec_bytes(),
                i <= es.len(),
                entry_views(kept@) == es.subrange(0, i as int).filter(|e: (Seq<u8>, Seq<u8>)| e.0 != k),
            decreases self.entries.len() - i,
        {
            let e = &self.entries[i];
            proof {
                reveal(Seq::filter);
                assert(es[i as int] == (utf8_of(&e.0), utf8_of(&e.1)));
                assert(es.subrange(0, i + 1).drop_last() =~= es.subrange(0, i as int));
            }
            if !bytes_eq(e.0.as_str().as_bytes(), uri.as_bytes()) {
                let ghost before = kept@;
                kept.push((e.0.clone(), e.1.clone()));
                proof {
                    assert(entry_views(kept@) =~= entry_views(before).push(es[i as int]));
                }
            }
            i += 1;
        }
        proof {
            assert(es.subrange(0, i as int) =~= es);
            lemma_entries_without(es, entry_views(kept@), k);
        }
        self.entries = kept;
    }

    /// Record `text` as the text of `uri`.
    pub fn insert(&mut self, uri: String, text: String)
        ensures
            final(self)@ == old(self)@.insert(utf8_of(&uri), utf8_of(&text)),
    {
        self.remove(uri.as_str());
        let ghost before = entry_views(self.entries@);
        let ghost u = utf8_of(&uri);
        let ghost t = utf8_of(&text);
        self.entries.push((uri, text));
        proof {
            assert(entry_views(self.entries@) =~= before.push((u, t)));
            assert(entry_views(self.entries@).drop_last() =~= before);
        }
    }
}

/// The server's capabilities: full-text sync, formatting and code actions.
pub open spec fn capabilities() -> Seq<u8> {
    lit(
        "{\"capabilities\":{\"textDocumentSync\":1,\"documentFormattingProvider\":true,\"codeActionProvider\":{\"codeActionKinds\":[\"quickfix\",\"source.fixAll.sumo-lint\"]}},\"serverInfo\":{\"name\":\"sumo-lint-lsp\",\"version\":\"0.1.0\"}}",
    )
}

/// The style the server formats with.
pub open spec fn server_style() -> Style {
    Style { heading_spacing: HeadingSpacing::PreserveDominant, trailing_whitespace: false }
}

/// The string value of field `key` in `body`.
pub open spec fn field_of(body: Seq<u8>, key: Seq<u8>) -> Option<Seq<u8>> {
    field_str_from(body, field_pat(key), 0)
}

/// The answer to a formatting request: no edit for a conforming document,
/// else one edit replacing the whole text.
pub open spec fn formatting_result(docs: Map<Seq<u8>, Seq<u8>>, body: Seq<u8>) -> Seq<u8> {
    match field_of(body, lit("uri")) {
        Some(u) => if docs.contains_key(u) {
            let text = docs[u];
            let f = format_spec(text, lex_spec(text), server_style());
            if f == text {
                lit("[]")
            } else {
                lit("[") + whole_edit_spec(text, f) + lit("]")
            }
        } else {
            lit("[]")
        },
        None => lit("[]"),
    }
}

/// The answer to a code-action request.
pub open spec fn code_action_result(docs: Map<Seq<u8>, Seq<u8>>, body: Seq<u8>) -> Seq<u8> {
    match field_of(body, lit("uri")) {
        Some(u) => if docs.contains_key(u) {
            code_actions_spec(u, docs[u], body)
        } else {
            lit("[]")
        },
        None => lit("[]"),
    }
}

/// The notification that clears the diagnostics of `uri`.
pub open spec fn clear_spec(uri: Seq<u8>) -> Seq<u8> {
    lit("{\"method\":\"textDocument/publishDiagnostics\",\"params\":{\"uri\":") + json_quote(uri) + lit(
        ",\"diagnostics\":[]}}",
    )
}

pub open spec fn id_of(body: Seq<u8>) -> Option<Seq<u8>> {
    field_raw_spec(body, lit("id"))
}

/// What the server does with one message `body`, given the open documents:
/// the documents after it, the messages it sends back (before framing), and
/// whether it exits.
pub open spec fn handle_spec(docs: Map<Seq<u8>, Seq<u8>>, body: Seq<u8>) -> (
    Map<Seq<u8>, Seq<u8>>,
    Seq<Seq<u8>>,
    bool,
) {
    let method = match field_of(body, lit("method")) {
        Some(m) => m,
        None => Seq::empty(),
    };
    let id = id_of(body);
    if method == lit("initialize") {
        (docs, seq![respond_spec(id, capabilities())], false)
    } else if method == lit("textDocument/formatting") {
        (docs, seq![respond_spec(id, formatting_result(docs, body))], false)
    } else if method == lit("textDocument/codeAction") {
        (docs, seq![respond_spec(id, code_action_result(docs, body))], false)
    } else if method == lit("shutdown") {
        (docs, seq![respond_spec(id, lit("null"))], false)
    } else if method == lit("exit") {
        (docs, Seq::empty(), true)
    } else if method == lit("textDocument/didOpen") || method == lit("textDocument/didChange") {
        match field_of(body, lit("uri")) {
            Some(u) => {
                let t = match extract_text_spec(body) {
                    Some(x) => x,
                    None => Seq::empty(),
                };
                (docs.insert(u, t), seq![notify_spec(publish_spec(u, t))], false)
            },
            None => (docs, Seq::empty(), false),
        }
    } else if method == lit("textDocument/didClose") {
        match field_of(body, lit("uri")) {
            Some(u) => (docs.remove(u), seq![notify_spec(clear_spec(u))], false),
            None => (docs, Seq::empty(), false),
        }
    } else if id is Some {
        (docs, seq![respond_spec(id, lit("null"))], false)
    } else {
        (docs, Seq::empty(), false)
    }
}

pub open spec fn payloads(v: Seq<String>) -> Seq<Seq<u8>> {
    v.map_values(|s: String| utf8_of(&s))
}

fn is_method(m: &String, name: &str) -> (r: bool)
    ensures
        r == (utf8_of(m) == name.spec_bytes()),
{
    bytes_eq(m.as_str().as_bytes(), name.as_bytes())
}

fn one(s: String) -> (r: Vec<String>)
    ensures
        payloads(r@) == seq![utf8_of(&s)],
{
    let mut v: Vec<String> = Vec::new();
    v.push(s);
    proof {
        assert(payloads(v@) =~= seq![utf8_of(&v@[0])]);
    }
    v
}

fn respond_owned(id: &Option<String>, result: &str) -> (r: String)
    ensures
        utf8_of(&r) == respond_spec(
            match id {
                Some(x) => Some(utf8_of(x)),
                None => None,
            },
            result.spec_bytes(),
        ),
{
    match id {
        Some(x) => respond(Some(x.as_str()), result),
        None => respond(None, result),
    }
}

/// The answer to a formatting request, as in [`formatting_result`].
fn formatting(docs: &Docs, body: &str) -> (r: String)
    ensures
        utf8_of(&r) == formatting_result(docs@, body.spec_bytes()),
{
    match field_str(body, "uri") {
        Some(u) => match docs.get(u.as_str()) {
            Some(text) => {
                let doc = Document::parse(text.as_str());
                let style = Style::thunderbird();
                let formatted = doc.format(&style);
                proof {
                    assert(doc.bytes() == utf8_of(text));
                    assert(style == server_style());
                }
                if bytes_eq(formatted.as_str().as_bytes(), text.as_str().as_bytes()) {
                    string_of("[]")
                } else {
                    let mut o = new_string();
                    append(&mut o, "[");
                    let w = whole_document_edit(text.as_str(), formatted.as_str());
                    append(&mut o, w.as_str());
                    append(&mut o, "]");
                    proof {
                        assert(utf8_of(&o) =~= formatting_result(docs@, body.spec_bytes()));
                    }
                    o
                }
            },
            None => string_of("[]"),
        },
        None => string_of("[]"),
    }
}

/// Handle one message: update the open documents and return the messages
/// to send back (each still to be framed), and whether to exit.
pub fn handle_message(docs: &mut Docs, body: &str) -> (r: (Vec<String>, bool))
    ensures
        (final(docs)@, payloads(r.0@), r.1) == handle_spec(old(docs)@, body.spec_bytes()),
{
    let method = match field_str(body, "method") {
        Some(m) => m,
        None => new_string(),
    };
    let id = field_raw(body, "id");
    proof {
        reveal_strlit("id");
        reveal_strlit("method");
        reveal_strlit("uri");
    }
    if is_method(&method, "initialize") {
        let r = respond_owned(
            &id,
            "{\"capabilities\":{\"textDocumentSync\":1,\"documentFormattingProvider\":true,\"codeActionProvider\":{\"codeActionKinds\":[\"quickfix\",\"source.fixAll.sumo-lint\"]}},\"serverInfo\":{\"name\":\"sumo-lint-lsp\",\"version\":\"0.1.0\"}}",
        );
        (one(r), false)
    } else if is_method(&method, "textDocument/formatting") {
        let res = formatting(docs, body);
        let r = respond_owned(&id, res.as_str());
        (one(r), false)
    } else if is_method(&method, "textDocument/codeAction") {
        let res = match field_str(body, "uri") {
            Some(uri) => match docs.get(uri.as_str()) {
                Some(text) => code_actions(uri.as_str(), text.as_str(), body),
                None => string_of("[]"),
            },
            None => string_of("[]"),
        };
        let r = respond_owned(&id, res.as_str());
        (one(r), false)
    } else if is_method(&method, "shutdown") {
        let r = respond_owned(&id, "null");
        (one(r), false)
    } else if is_method(&method, "exit") {
        let v: Vec<String> = Vec::new();
        proof {
            assert(payloads(v@) =~= Seq::<Seq<u8>>::empty());
        }
        (v, true)
    } else if is_method(&method, "textDocument/didOpen") || is_method(&method, "textDocument/didChange") {
        match field_str(body, "uri") {
            Some(uri) => {
                let text = match extract_text(body) {
                    Some(t) => t,
                    None => new_string(),
                };
                let p = publish(uri.as_str(), text.as_str());
                let n = notify(p.as_str());
                docs.insert(uri, text);
                (one(n), false)
            },
            None => {
                let v: Vec<String> = Vec::new();
                proof {
                    assert(payloads(v@) =~= Seq::<Seq<u8>>::empty());
                }
                (v, false)
            },
        }
    } else if is_method(&method, "textDocument/didClose") {
        match field_str(body, "uri") {
            Some(uri) => {
                docs.remove(uri.as_str());
                let mut c = new_string();
                append(&mut c, "{\"method\":\"textDocument/publishDiagnostics\",\"params\":{\"uri\":");
                let q = json_str(uri.as_str());
                append(&mut c, q.as_str());
                append(&mut c, ",\"diagnostics\":[]}}");
                proof {
                    assert(utf8_of(&c) =~= clear_spec(utf8_of(&uri)));
                }
                let n = notify(c.as_str());
                (one(n), false)
            },
            None => {
                let v: Vec<String> = Vec::new();
                proof {
                    assert(payloads(v@) =~= Seq::<Seq<u8>>::empty());
                }
                (v, false)
            },
        }
    } else if id.is_some() {
        let r = respond_owned(&id, "null");
        (one(r), false)
    } else {
        let v: Vec<String> = Vec::new();
        proof {
            assert(payloads(v@) =~= Seq::<Seq<u8>>::empty());
        }
        (v, false)
    }
}

// ---------------------------------------------------------------------------
// Laws of the server
// ---------------------------------------------------------------------------

proof fn lemma_empty_list()
    ensures
        lit("[") + join_commas(Seq::<Seq<u8>>::empty()) + lit("]") == lit("[]"),
{
    reveal_strlit("[");
    reveal_strlit("]");
    reveal_strlit("[]");
    assert(is_ascii("["));
    assert(is_ascii("]"));
    assert(is_ascii("[]"));
    is_ascii_spec_bytes("[");
    is_ascii_spec_bytes("]");
    is_ascii_spec_bytes("[]");
    assert(join_commas(Seq::<Seq<u8>>::empty()) =~= Seq::<u8>::empty());
    assert(lit("[") + join_commas(Seq::<Seq<u8>>::empty()) + lit("]") =~= lit("[]"));
}

proof fn lemma_no_actions_for(uri: Seq<u8>, b: Seq<u8>, ds: Seq<DiagnosticView>, start: int, end: int)
    requires
        ds.len() == 0,
    ensures
        quick_fixes(uri, b, ds, start, end) == Seq::<Seq<u8>>::empty(),
        apply_spec(b, ds, false) == (b, 0nat),
{
    assert(chosen_fixes(ds, false) =~= Seq::<FixView>::empty());
    lemma_nothing_to_fix(b, ds, false);
}

/// A clean document gets no code actions at all: no quick fix, and no
/// fix-all action.
pub proof fn lemma_clean_document_no_actions(uri: Seq<u8>, b: Seq<u8>, body: Seq<u8>)
    requires
        check_spec(b, lex_spec(b)).len() == 0,
    ensures
        code_actions_spec(uri, b, body) == lit("[]"),
{
    let span = action_span(b, body);
    lemma_no_actions_for(uri, b, check_spec(b, lex_spec(b)), span.0, span.1);
    lemma_empty_list();
}

proof fn lemma_digit_lits(k: int)
    requires
        0 <= k < 10,
    ensures
        lit(digit_str(k)) == seq![(48 + k) as u8],
{
    reveal_strlit("0");
    reveal_strlit("1");
    reveal_strlit("2");
    reveal_strlit("3");
    reveal_strlit("4");
    reveal_strlit("5");
    reveal_strlit("6");
    reveal_strlit("7");
    reveal_strlit("8");
    reveal_strlit("9");
    let s = digit_str(k);
    assert(is_ascii(s));
    is_ascii_spec_bytes(s);
    assert(lit(s) =~= seq![(48 + k) as u8]);
}

proof fn lemma_dec_value_prefix(x: Seq<u8>, y: Seq<u8>, n: int)
    requires
        0 <= n <= x.len(),
        n <= y.len(),
        forall|q: int| 0 <= q < n ==> x[q] == y[q],
    ensures
        dec_value(x, 0, n) == dec_value(y, 0, n),
    decreases n,
{
    if n > 0 {
        lemma_dec_value_prefix(x, y, n - 1);
    }
}

proof fn lemma_dec_value_shift(b: Seq<u8>, a: int, e: int)
    requires
        0 <= a <= e <= b.len(),
    ensures
        dec_value(b.subrange(a, e), 0, e - a) == dec_value(b, a, e),
    decreases e - a,
{
    if a < e {
        lemma_dec_value_shift(b, a, e - 1);
        lemma_dec_value_prefix(b.subrange(a, e - 1), b.subrange(a, e), e - 1 - a);
    }
}

/// The decimal digits of `n` read back as `n`.
proof fn lemma_dec_digits(n: nat)
    ensures
        dec(n).len() >= 1,
        forall|q: int| 0 <= q < dec(n).len() ==> is_digit(#[trigger] dec(n)[q]),
        dec_value(dec(n), 0, dec(n).len() as int) == n,
    decreases n,
{
    if n < 10 {
        lemma_digit_lits(n as int);
        assert(dec(n) == seq![(48 + n) as u8]);
        assert(dec_value(dec(n), 0, 0) == 0);
    } else {
        lemma_dec_digits(n / 10);
        lemma_digit_lits((n % 10) as int);
        let h = dec(n / 10);
        let d = dec(n);
        assert(d == h + seq![(48 + n % 10) as u8]);
        lemma_dec_value_prefix(d, h, h.len() as int);
        assert(n == (n / 10) * 10 + n % 10) by (nonlinear_arith);
    }
}

proof fn lemma_first_byte_at(b: Seq<u8>, c: u8, from: int, x: int)
    requires
        0 <= from <= x < b.len(),
        b[x] == c,
        forall|q: int| from <= q < x ==> b[q] != c,
    ensures
        first_byte(b, c, from, b.len() as int) == Some(x),
    decreases x - from,
{
    if from < x {
        lemma_first_byte_at(b, c, from + 1, x);
    }
}

/// The framing round trip: the message `frame_message` writes reads back
/// whole, body and length; a payload of valid UTF-8 comes back as itself.
pub proof fn lemma_frame_round_trip(p: Seq<u8>)
    requires
        p.len() <= usize::MAX,
    ensures
        read_message_spec(frame_spec(p)) == Some(
            (
                if p.len() == 0 {
                    Seq::<u8>::empty()
                } else {
                    decoded(p)
                },
                frame_spec(p).len() as int,
            ),
        ),
        valid_utf8(p) ==> read_message_spec(frame_spec(p)) == Some((p, frame_spec(p).len() as int)),
{
    let n = p.len();
    let dd = dec(n);
    let d = dd.len() as int;
    let head = lit("Content-Length: ");
    let key = lit("Content-Length:");
    let crlf = lit("\r\n\r\n");
    reveal_strlit("Content-Length: ");
    reveal_strlit("Content-Length:");
    reveal_strlit("\r\n\r\n");
    assert(is_ascii("Content-Length: "));
    assert(is_ascii("Content-Length:"));
    assert(is_ascii("\r\n\r\n"));
    is_ascii_spec_bytes("Content-Length: ");
    is_ascii_spec_bytes("Content-Length:");
    is_ascii_spec_bytes("\r\n\r\n");
    assert(head.len() == 16);
    assert(key.len() == 15);
    assert(crlf =~= seq![13u8, 10u8, 13u8, 10u8]);
    lemma_dec_digits(n);
    let b = frame_spec(p);
    assert(b == head + dd + crlf + p);
    let len = b.len() as int;
    assert(len == 20 + d + n);
    // The byte layout of the frame.
    assert forall|q: int| 0 <= q < 16 implies #[trigger] b[q] == head[q] && head[q] != 10 && !(9 <= head[q] <= 13) by {}
    assert(b[15] == 32);
    assert forall|q: int| 16 <= q < 16 + d implies #[trigger] b[q] == dd[q - 16] && is_digit(b[q]) by {
        assert(is_digit(dd[q - 16]));
    }
    assert(b[16 + d] == 13);
    assert(b[17 + d] == 10);
    assert(b[18 + d] == 13);
    assert(b[19 + d] == 10);
    assert(b.subrange(20 + d, len) =~= p);
    // The header line.
    lemma_first_byte_at(b, 10, 0, 17 + d);
    assert(line_after(b, 0) == 18 + d);
    assert(b[15 + d] != 32 && !(9 <= b[15 + d] <= 13));
    assert(ws_before(b, 0, 18 + d) == 1);
    assert(ws_before(b, 0, 17 + d) == 1);
    assert(ws_before(b, 0, 16 + d) == 0);
    assert(skip_ws_back(b, 0, 16 + d) == 16 + d);
    assert(skip_ws_back(b, 0, 17 + d) == 16 + d);
    assert(skip_ws_back(b, 0, 18 + d) == 16 + d);
    assert(matches_at(b, 0, key));
    assert(ws_at(b, 15, 16 + d) == 1);
    assert(ws_at(b, 16, 16 + d) == 0);
    assert(skip_ws(b, 16, 16 + d) == 16);
    assert(skip_ws(b, 15, 16 + d) == 16);
    assert(ws_before(b, 16, 16 + d) == 0);
    assert(skip_ws_back(b, 16, 16 + d) == 16 + d);
    assert(trimmed(b, 15, 16 + d) == (16int, 16 + d));
    lemma_dec_value_shift(b, 16, 16 + d);
    assert(b.subrange(16, 16 + d) =~= dd);
    assert(parse_usize_spec(b, 16, 16 + d) == Some(n as int));
    assert(header_length(b, 0, 16 + d, 0) == n);
    // The blank line.
    lemma_first_byte_at(b, 10, 18 + d, 19 + d);
    assert(line_after(b, 18 + d) == 20 + d);
    assert(ws_before(b, 18 + d, 20 + d) == 1);
    assert(ws_before(b, 18 + d, 19 + d) == 1);
    assert(skip_ws_back(b, 18 + d, 18 + d) == 18 + d);
    assert(skip_ws_back(b, 18 + d, 19 + d) == 18 + d);
    assert(skip_ws_back(b, 18 + d, 20 + d) == 18 + d);
    assert(header_scan(b, 18 + d, n as int) == Some((20 + d, n as int)));
    assert(header_scan(b, 0, 0) == Some((20 + d, n as int)));
}


// ---------------------------------------------------------------------------
// The text field round trip
// ---------------------------------------------------------------------------

/// No UTF-8 continuation byte follows an ASCII byte in `s`.
pub open spec fn ascii_then_lead(s: Seq<u8>) -> bool {
    forall|k: int| 0 <= k < s.len() - 1 && s[k] < 0x80 ==> !is_continuation_byte(#[trigger] s[k + 1])
}

proof fn lemma_valid_ascii_then_lead(s: Seq<u8>)
    requires
        valid_utf8(s),
    ensures
        ascii_then_lead(s),
{
    assert forall|k: int| 0 <= k < s.len() - 1 && s[k] < 0x80 implies !is_continuation_byte(#[trigger] s[k + 1]) by {
        lemma_boundary_after_ascii(s, k + 1);
        is_char_boundary_iff_not_is_continuation_byte(s, k + 1);
    }
}

/// Escaping works front to back too.
proof fn lemma_escape_front(s: Seq<u8>)
    requires
        s.len() > 0,
    ensures
        json_escape(s) == escape_byte(s[0]) + json_escape(s.drop_first()),
    decreases s.len(),
{
    if s.len() == 1 {
        assert(s.drop_first() =~= Seq::<u8>::empty());
        assert(s.drop_last() =~= Seq::<u8>::empty());
        assert(json_escape(s.drop_last()) == Seq::<u8>::empty());
        assert(s.last() == s[0]);
        assert(json_escape(s) == json_escape(s.drop_last()) + escape_byte(s.last()));
        assert(json_escape(s) =~= escape_byte(s[0]));
        assert(json_escape(s.drop_first()) == Seq::<u8>::empty());
    } else {
        let p = s.drop_last();
        lemma_escape_front(p);
        assert(p.drop_first() =~= s.drop_first().drop_last());
        assert(s.drop_first().last() == s.last());
        assert(json_escape(s) =~= escape_byte(s[0]) + json_escape(s.drop_first()));
    }
}

/// Every `"` of an escaped string is escaped: a `\` stands before it.
proof fn lemma_escape_quotes(s: Seq<u8>)
    ensures
        forall|k: int| 0 <= k < json_escape(s).len() && #[trigger] json_escape(s)[k] == 34 ==> k >= 1 && json_escape(s)[k - 1] == 92,
    decreases s.len(),
{
    if s.len() > 0 {
        let p = s.drop_last();
        lemma_escape_quotes(p);
        let e = json_escape(s);
        let ep = json_escape(p);
        let x = escape_byte(s.last());
        assert(e == ep + x);
        assert forall|k: int| 0 <= k < e.len() && #[trigger] e[k] == 34 implies k >= 1 && e[k - 1] == 92 by {
            if k < ep.len() {
                assert(e[k] == ep[k]);
                assert(e[k - 1] == ep[k - 1]);
            } else {
                let c = s.last();
                assert(e[k] == x[k - ep.len()]);
                if c < 32 && c != 10 && c != 13 && c != 9 {
                    assert(hex_digit((c / 16) as int) != 34);
                    assert(hex_digit((c % 16) as int) != 34);
                }
                if k > ep.len() {
                    assert(e[k - 1] == x[k - 1 - ep.len()]);
                }
            }
        }
    }
}

proof fn lemma_hex_digit(n: int)
    requires
        0 <= n < 16,
    ensures
        is_hex(hex_digit(n)),
        hex_val(hex_digit(n)) == n,
        !is_continuation_byte(hex_digit(n)),
{
}

proof fn lemma_encode_ascii(v: int)
    requires
        0 <= v < 0x80,
    ensures
        encode_utf8(seq![v as char]) == seq![v as u8],
{
    let x = v as u32;
    let c = x as char;
    assert(c as u32 == x);
    assert(c == v as char);
    assert((x & 0x7F) as u8 == x) by (bit_vector)
        requires
            x < 0x80,
    ;
    let cs = seq![c];
    assert(cs.drop_first() =~= Seq::<char>::empty());
    assert(cs[0] == c);
    assert(encode_utf8(cs.drop_first()) =~= Seq::<u8>::empty());
    assert(encode_utf8(cs) == encode_scalar(x) + encode_utf8(cs.drop_first()));
    assert(encode_scalar(x) =~= seq![v as u8]);
    assert(encode_utf8(cs) =~= seq![v as u8]);
}

/// A `\u00XY` escape of a control byte decodes to that byte, when what
/// follows it is not a continuation byte.
proof fn lemma_decode_control(b: Seq<u8>, q: int, c: u8)
    requires
        0 <= q,
        q + 6 < b.len(),
        c < 32,
        c != 10 && c != 13 && c != 9,
        forall|k: int| 0 <= k < 6 ==> b[q + k] == #[trigger] escape_byte(c)[k],
        !is_continuation_byte(b[q + 6]),
    ensures
        decode_text(b, q) == seq![c] + decode_text(b, q + 6),
{
    let hi = (c / 16) as int;
    let lo = (c % 16) as int;
    lemma_hex_digit(hi);
    lemma_hex_digit(lo);
    assert(b[q] == escape_byte(c)[0]);
    assert(b[q + 1] == escape_byte(c)[1]);
    assert(b[q + 2] == escape_byte(c)[2]);
    assert(b[q + 3] == escape_byte(c)[3]);
    assert(b[q + 4] == escape_byte(c)[4]);
    assert(b[q + 5] == escape_byte(c)[5]);
    assert(cont_run(b, q + 3) == 0);
    assert(cont_run(b, q + 4) == 0);
    assert(cont_run(b, q + 5) == 0);
    assert(cont_run(b, q + 6) == 0);
    assert(skip_chars(b, q + 6, 0) == q + 6);
    assert(skip_chars(b, q + 5, 1) == q + 6);
    assert(skip_chars(b, q + 4, 2) == q + 6);
    assert(skip_chars(b, q + 3, 3) == q + 6);
    assert(skip_chars(b, q + 2, 4) == q + 6);
    assert(hex_value(b, q + 2, q + 2) == 0);
    assert(hex_value(b, q + 2, q + 3) == 0);
    assert(hex_value(b, q + 2, q + 4) == 0);
    assert(hex_value(b, q + 2, q + 5) == hi);
    assert(hex_value(b, q + 2, q + 6) == hi * 16 + lo);
    assert(all_hex(b, q + 2, q + 6));
    assert(radix16(b, q + 2, q + 6) == Some(c as int));
    lemma_encode_ascii(c as int);
}

/// Any other escape, or a byte that needs none, decodes to its byte.
proof fn lemma_decode_plain(b: Seq<u8>, q: int, c: u8)
    requires
        0 <= q,
        q + escape_byte(c).len() < b.len(),
        !(c < 32 && c != 10 && c != 13 && c != 9),
        forall|k: int| 0 <= k < escape_byte(c).len() ==> b[q + k] == #[trigger] escape_byte(c)[k],
    ensures
        decode_text(b, q) == seq![c] + decode_text(b, q + escape_byte(c).len()),
{
    assert(b[q] == escape_byte(c)[0]);
    if escape_byte(c).len() == 2 {
        assert(b[q + 1] == escape_byte(c)[1]);
    }
}

/// Decoding an escaped string up to its closing quote gives the string back.
proof fn lemma_decode_escaped(b: Seq<u8>, q: int, s: Seq<u8>)
    requires
        0 <= q,
        q + json_escape(s).len() < b.len(),
        b.subrange(q, q + json_escape(s).len()) == json_escape(s),
        b[q + json_escape(s).len()] == 34,
        ascii_then_lead(s),
    ensures
        decode_text(b, q) == s,
    decreases s.len(),
{
    if s.len() > 0 {
        let c = s[0];
        let rest = s.drop_first();
        lemma_escape_front(s);
        let x = escape_byte(c);
        let w = x.len() as int;
        let er = json_escape(rest);
        assert(json_escape(s) == x + er);
        assert forall|k: int| 0 <= k < w implies b[q + k] == #[trigger] x[k] by {
            assert(b.subrange(q, q + json_escape(s).len())[k] == b[q + k]);
            assert((x + er)[k] == x[k]);
        }
        assert(b.subrange(q + w, q + w + er.len()) =~= er) by {
            assert forall|k: int| 0 <= k < er.len() implies b.subrange(q + w, q + w + er.len())[k] == er[k] by {
                assert(b.subrange(q, q + json_escape(s).len())[w + k] == b[q + w + k]);
                assert((x + er)[w + k] == er[k]);
            }
        }
        assert forall|k: int| 0 <= k < rest.len() - 1 && rest[k] < 0x80 implies !is_continuation_byte(#[trigger] rest[k + 1]) by {
            assert(rest[k] == s[k + 1]);
            assert(rest[k + 1] == s[k + 2]);
        }
        lemma_decode_escaped(b, q + w, rest);
        if c < 32 && c != 10 && c != 13 && c != 9 {
            assert(!is_continuation_byte(b[q + 6])) by {
                if rest.len() > 0 {
                    lemma_escape_front(rest);
                    assert(er[0] == escape_byte(rest[0])[0]);
                    assert(b.subrange(q + w, q + w + er.len())[0] == b[q + 6]);
                    assert(s[1] == rest[0]);
                    assert(!is_continuation_byte(s[1]));
                }
            }
            lemma_decode_control(b, q, c);
        } else {
            lemma_decode_plain(b, q, c);
        }
        assert(s =~= seq![c] + rest);
    }
}

/// The didOpen/didChange shape carrying `s` as its `text`.
pub open spec fn text_message(s: Seq<u8>) -> Seq<u8> {
    lit("{\"text\":") + json_quote(s) + lit("}")
}

proof fn lemma_last_text_key_at(b: Seq<u8>, i: int, p: int)
    requires
        0 <= p <= i,
        text_key_at(b, p),
        forall|j: int| p < j <= i ==> !text_key_at(b, j),
    ensures
        last_text_key(b, i) == Some(p),
    decreases i,
{
    if i > p {
        lemma_last_text_key_at(b, i - 1, p);
    }
}

/// The text round trip: a message whose `text` is the JSON string of any
/// UTF-8 text `s` gives `s` back, whatever `s` holds (quotes, the word
/// `text`, escapes).
pub proof fn lemma_extract_text_round_trip(s: Seq<u8>)
    requires
        valid_utf8(s),
    ensures
        extract_text_spec(text_message(s)) == Some(s),
{
    let head = lit("{\"text\":");
    let key = lit("\"text\"");
    let tail = lit("}");
    reveal_strlit("{\"text\":");
    reveal_strlit("\"text\"");
    reveal_strlit("}");
    assert(is_ascii("{\"text\":"));
    assert(is_ascii("\"text\""));
    assert(is_ascii("}"));
    is_ascii_spec_bytes("{\"text\":");
    is_ascii_spec_bytes("\"text\"");
    is_ascii_spec_bytes("}");
    assert(head =~= seq![123u8, 34u8, 116u8, 101u8, 120u8, 116u8, 34u8, 58u8]);
    assert(key =~= seq![34u8, 116u8, 101u8, 120u8, 116u8, 34u8]);
    assert(tail =~= seq![125u8]);
    let e = json_escape(s);
    let m = e.len() as int;
    let b = text_message(s);
    assert(b =~= head + seq![34u8] + e + seq![34u8] + tail);
    assert(b.len() == m + 11);
    assert forall|k: int| 0 <= k < m implies b[9 + k] == #[trigger] e[k] by {
        assert((head + seq![34u8] + e + seq![34u8] + tail)[9 + k] == e[k]);
    }
    assert(b[8] == 34);
    assert(b[9 + m] == 34);
    assert(b[10 + m] == 125);
    lemma_escape_quotes(s);
    // the key at 1
    lemma_skip_ws(b, 7, b.len() as int);
    assert(ws_at(b, 7, b.len() as int) == 0);
    assert(text_key_at(b, 1));
    // no later key
    assert forall|j: int| 1 < j <= b.len() - 6 implies !text_key_at(b, j) by {
        if text_key_at(b, j) {
            assert(b[j] == key[0]);
            assert(b[j + 1] == key[1]);
            assert(b[j + 4] == key[4]);
            assert(b[j + 5] == key[5]);
            if j < 8 {
                assert(b[j] == head[j]);
                assert(b[j + 1] == (head + seq![34u8])[j + 1]);
            } else if j == 8 {
                if m > 4 {
                    assert(e[4] == 34);
                    assert(e[3] == 116);
                } else if m < 4 {
                    assert(b[9 + m] == 34);
                    assert(b[9 + m] == key[1 + m]);
                } else {
                    lemma_skip_ws(b, 14, b.len() as int);
                    assert(ws_at(b, 14, b.len() as int) == 0);
                }
            } else {
                assert(j < 9 + m) by {
                    if j == 9 + m {
                        assert(b[j + 1] == 125);
                    }
                }
                assert(e[j - 9] == 34);
                if j + 5 < 9 + m {
                    assert(e[j + 5 - 9] == 34);
                    assert(e[j + 4 - 9] == 92);
                } else {
                    assert(j + 5 == 9 + m);
                    lemma_skip_ws(b, j + 6, b.len() as int);
                    assert(ws_at(b, j + 6, b.len() as int) == 0);
                }
            }
        }
    }
    lemma_last_text_key_at(b, b.len() - 6, 1);
    assert(b.len() - key.len() == b.len() - 6);
    // the value
    lemma_skip_ws(b, 8, b.len() as int);
    assert(ws_at(b, 8, b.len() as int) == 0);
    lemma_valid_ascii_then_lead(s);
    assert(b.subrange(9, 9 + m) =~= e);
    lemma_decode_escaped(b, 9, s);
}

} // verus!
