//! Byte-level scanning over UTF-8 text: literal matching, searching,
//! Unicode white space, character boundaries, and building strings from
//! slices of the source.
//!
//! Every position in this crate is a byte offset into the UTF-8 encoding of
//! the document, exactly as Rust's `str` indexing uses them.
use vstd::prelude::*;
use vstd::utf8::*;
use vstd::string::*;

verus! {

broadcast use vstd::seq::group_seq_axioms;

// ---------------------------------------------------------------------------
// Literals and searching
// ---------------------------------------------------------------------------

/// ASCII lowercase of one byte; every other byte is unchanged.
pub open spec fn lower(c: u8) -> u8 {
    if 65 <= c && c <= 90 {
        (c + 32) as u8
    } else {
        c
    }
}

pub fn to_lower(c: u8) -> (r: u8)
    ensures
        r == lower(c),
{
    if 65 <= c && c <= 90 {
        c + 32
    } else {
        c
    }
}

/// `lit` occurs in `b` starting at `i`.
pub open spec fn matches_at(b: Seq<u8>, i: int, lit: Seq<u8>) -> bool {
    &&& 0 <= i
    &&& i + lit.len() <= b.len()
    &&& forall|k: int| 0 <= k < lit.len() ==> b[i + k] == #[trigger] lit[k]
}

/// `lit` occurs in `b` starting at `i`, ignoring ASCII case.
pub open spec fn matches_at_ci(b: Seq<u8>, i: int, lit: Seq<u8>) -> bool {
    &&& 0 <= i
    &&& i + lit.len() <= b.len()
    &&& forall|k: int| 0 <= k < lit.len() ==> lower(b[i + k]) == lower(#[trigger] lit[k])
}

pub fn bytes_match_at(b: &[u8], i: usize, lit: &[u8]) -> (r: bool)
    ensures
        r == matches_at(b@, i as int, lit@),
{
    if i > b.len() || lit.len() > b.len() - i {
        return false;
    }
    let mut k: usize = 0;
    while k < lit.len()
        invariant
            i + lit.len() <= b.len(),
            k <= lit.len(),
            forall|j: int| 0 <= j < k ==> b@[i + j] == #[trigger] lit@[j],
        decreases lit.len() - k,
    {
        if b[i + k] != lit[k] {
            return false;
        }
        k += 1;
    }
    true
}

pub fn bytes_match_at_ci(b: &[u8], i: usize, lit: &[u8]) -> (r: bool)
    ensures
        r == matches_at_ci(b@, i as int, lit@),
{
    if i > b.len() || lit.len() > b.len() - i {
        return false;
    }
    let mut k: usize = 0;
    while k < lit.len()
        invariant
            i + lit.len() <= b.len(),
            k <= lit.len(),
            forall|j: int| 0 <= j < k ==> lower(b@[i + j]) == lower(#[trigger] lit@[j]),
        decreases lit.len() - k,
    {
        if to_lower(b[i + k]) != to_lower(lit[k]) {
            return false;
        }
        k += 1;
    }
    true
}

/// The first position in `from..to` holding byte `c`.
pub open spec fn first_byte(b: Seq<u8>, c: u8, from: int, to: int) -> Option<int>
    decreases to - from,
{
    if from >= to {
        None
    } else if b[from] == c {
        Some(from)
    } else {
        first_byte(b, c, from + 1, to)
    }
}

pub proof fn lemma_first_byte(b: Seq<u8>, c: u8, from: int, to: int)
    ensures
        match first_byte(b, c, from, to) {
            Some(p) => from <= p < to && b[p] == c && forall|q: int|
                from <= q < p ==> b[q] != c,
            None => forall|q: int| from <= q < to ==> b[q] != c,
        },
    decreases to - from,
{
    if from < to {
        lemma_first_byte(b, c, from + 1, to);
    }
}

pub fn find_byte(b: &[u8], c: u8, from: usize, to: usize) -> (r: Option<usize>)
    requires
        from <= to <= b.len(),
    ensures
        r matches Some(p) ==> first_byte(b@, c, from as int, to as int) == Some(p as int),
        r is None ==> first_byte(b@, c, from as int, to as int) is None,
{
    let mut k = from;
    while k < to
        invariant
            from <= k <= to <= b.len(),
            first_byte(b@, c, from as int, to as int) == first_byte(b@, c, k as int, to as int),
        decreases to - k,
    {
        if b[k] == c {
            return Some(k);
        }
        k += 1;
    }
    None
}

/// The first position at or after `from` where `lit` occurs.
pub open spec fn first_match(b: Seq<u8>, lit: Seq<u8>, from: int) -> Option<int>
    decreases b.len() + 1 - from,
{
    if from < 0 || from + lit.len() > b.len() {
        None
    } else if matches_at(b, from, lit) {
        Some(from)
    } else {
        first_match(b, lit, from + 1)
    }
}

/// The first position at or after `from` where `lit` occurs, ignoring ASCII case.
pub open spec fn first_match_ci(b: Seq<u8>, lit: Seq<u8>, from: int) -> Option<int>
    decreases b.len() + 1 - from,
{
    if from < 0 || from + lit.len() > b.len() {
        None
    } else if matches_at_ci(b, from, lit) {
        Some(from)
    } else {
        first_match_ci(b, lit, from + 1)
    }
}

pub proof fn lemma_first_match(b: Seq<u8>, lit: Seq<u8>, from: int)
    requires
        0 <= from,
    ensures
        first_match(b, lit, from) matches Some(p) ==> from <= p && matches_at(b, p, lit)
            && forall|q: int| from <= q < p ==> !matches_at(b, q, lit),
        first_match(b, lit, from) is None ==> forall|q: int|
            from <= q ==> !matches_at(b, q, lit),
    decreases b.len() + 1 - from,
{
    if from + lit.len() <= b.len() {
        lemma_first_match(b, lit, from + 1);
    }
}

pub proof fn lemma_first_match_ci(b: Seq<u8>, lit: Seq<u8>, from: int)
    requires
        0 <= from,
    ensures
        first_match_ci(b, lit, from) matches Some(p) ==> from <= p && matches_at_ci(b, p, lit)
            && p + lit.len() <= b.len(),
    decreases b.len() + 1 - from,
{
    if from + lit.len() <= b.len() {
        lemma_first_match_ci(b, lit, from + 1);
    }
}

pub fn find_lit(b: &[u8], lit: &[u8], from: usize) -> (r: Option<usize>)
    requires
        from <= b.len(),
    ensures
        r matches Some(p) ==> first_match(b@, lit@, from as int) == Some(p as int),
        r is None ==> first_match(b@, lit@, from as int) is None,
{
    let mut k = from;
    while k <= b.len() && lit.len() <= b.len() - k
        invariant
            from <= k,
            first_match(b@, lit@, from as int) == first_match(b@, lit@, k as int),
        decreases b.len() + 1 - k,
    {
        if bytes_match_at(b, k, lit) {
            return Some(k);
        }
        k += 1;
    }
    None
}

pub fn find_lit_ci(b: &[u8], lit: &[u8], from: usize) -> (r: Option<usize>)
    requires
        from <= b.len(),
    ensures
        r matches Some(p) ==> first_match_ci(b@, lit@, from as int) == Some(p as int),
        r is None ==> first_match_ci(b@, lit@, from as int) is None,
{
    let mut k = from;
    while k <= b.len() && lit.len() <= b.len() - k
        invariant
            from <= k,
            first_match_ci(b@, lit@, from as int) == first_match_ci(b@, lit@, k as int),
        decreases b.len() + 1 - k,
    {
        if bytes_match_at_ci(b, k, lit) {
            return Some(k);
        }
        k += 1;
    }
    None
}

/// Length of the run of byte `c` starting at `i` (stopping at `end`).
pub open spec fn run_len(b: Seq<u8>, c: u8, i: int, end: int) -> int
    decreases end - i,
{
    if i < end && b[i] == c {
        1 + run_len(b, c, i + 1, end)
    } else {
        0
    }
}

pub proof fn lemma_run_len(b: Seq<u8>, c: u8, i: int, end: int)
    requires
        0 <= i,
        end <= b.len(),
    ensures
        0 <= run_len(b, c, i, end),
        i < end ==> i + run_len(b, c, i, end) <= end,
        forall|q: int| i <= q < i + run_len(b, c, i, end) ==> b[q] == c,
        i + run_len(b, c, i, end) < end ==> b[i + run_len(b, c, i, end)] != c,
    decreases end - i,
{
    if i < end && b[i] == c {
        lemma_run_len(b, c, i + 1, end);
    }
}

pub fn count_run(b: &[u8], c: u8, i: usize, end: usize) -> (r: usize)
    requires
        i <= end <= b.len(),
    ensures
        r == run_len(b@, c, i as int, end as int),
        i + r <= end,
{
    proof {
        lemma_run_len(b@, c, i as int, end as int);
    }
    let mut k = i;
    while k < end && b[k] == c
        invariant
            i <= k <= end <= b.len(),
            run_len(b@, c, i as int, end as int) == (k - i) + run_len(b@, c, k as int, end as int),
        decreases end - k,
    {
        k += 1;
    }
    k - i
}

// ---------------------------------------------------------------------------
// Unicode white space (the `White_Space` property, as `str::trim` uses it)
// ---------------------------------------------------------------------------

/// Length of the white-space character encoded at `p`, if it lies before `end`;
/// 0 if there is none. The set is Unicode's `White_Space`: U+0009..U+000D,
/// U+0020, U+0085, U+00A0, U+1680, U+2000..U+200A, U+2028, U+2029, U+202F,
/// U+205F and U+3000.
pub open spec fn ws_at(b: Seq<u8>, p: int, end: int) -> int {
    if 0 <= p < end && (b[p] == 32 || (9 <= b[p] && b[p] <= 13)) {
        1
    } else if 0 <= p && p + 1 < end && b[p] == 0xC2 && (b[p + 1] == 0x85 || b[p + 1] == 0xA0) {
        2
    } else if 0 <= p && p + 2 < end && is_ws3(b[p], b[p + 1], b[p + 2]) {
        3
    } else {
        0
    }
}

/// The three-byte encodings of white-space characters.
pub open spec fn is_ws3(x: u8, y: u8, z: u8) -> bool {
    ||| (x == 0xE1 && y == 0x9A && z == 0x80)
    ||| (x == 0xE2 && y == 0x80 && ((0x80 <= z && z <= 0x8A) || z == 0xA8 || z == 0xA9 || z
        == 0xAF))
    ||| (x == 0xE2 && y == 0x81 && z == 0x9F)
    ||| (x == 0xE3 && y == 0x80 && z == 0x80)
}

/// Length of the white-space character whose encoding ends just before `q`
/// and starts no earlier than `start`; 0 if there is none.
pub open spec fn ws_before(b: Seq<u8>, start: int, q: int) -> int {
    if start <= q - 1 && q <= b.len() && (b[q - 1] == 32 || (9 <= b[q - 1] && b[q - 1] <= 13)) {
        1
    } else if start <= q - 2 && q <= b.len() && b[q - 2] == 0xC2 && (b[q - 1] == 0x85 || b[q
        - 1] == 0xA0) {
        2
    } else if start <= q - 3 && q <= b.len() && is_ws3(b[q - 3], b[q - 2], b[q - 1]) {
        3
    } else {
        0
    }
}

/// First position at or after `p` (and before `end`) that does not start a
/// white-space character: the start of `trim_start`.
pub open spec fn skip_ws(b: Seq<u8>, p: int, end: int) -> int
    decreases end - p,
{
    if ws_at(b, p, end) > 0 {
        skip_ws(b, p + ws_at(b, p, end), end)
    } else {
        p
    }
}

/// Last position at or before `q` (and after `start`) not preceded by a
/// white-space character: the end of `trim_end`.
pub open spec fn skip_ws_back(b: Seq<u8>, start: int, q: int) -> int
    decreases q - start,
{
    if ws_before(b, start, q) > 0 {
        skip_ws_back(b, start, q - ws_before(b, start, q))
    } else {
        q
    }
}

/// The bounds of `b[a..e].trim()`.
pub open spec fn trimmed(b: Seq<u8>, a: int, e: int) -> (int, int) {
    let s = skip_ws(b, a, e);
    (s, skip_ws_back(b, s, e))
}

/// `b[a..e]` is empty once trimmed: it holds only white space.
pub open spec fn is_blank(b: Seq<u8>, a: int, e: int) -> bool {
    skip_ws(b, a, e) >= e
}

pub proof fn lemma_skip_ws(b: Seq<u8>, p: int, end: int)
    requires
        0 <= p <= end <= b.len(),
    ensures
        p <= skip_ws(b, p, end) <= end,
        skip_ws(b, p, end) < end ==> ws_at(b, skip_ws(b, p, end), end) == 0,
    decreases end - p,
{
    if ws_at(b, p, end) > 0 {
        lemma_skip_ws(b, p + ws_at(b, p, end), end);
    }
}

pub proof fn lemma_skip_ws_back(b: Seq<u8>, start: int, q: int)
    requires
        0 <= start <= q <= b.len(),
    ensures
        start <= skip_ws_back(b, start, q) <= q,
    decreases q - start,
{
    if ws_before(b, start, q) > 0 {
        lemma_skip_ws_back(b, start, q - ws_before(b, start, q));
    }
}

pub fn ws_len(b: &[u8], p: usize, end: usize) -> (r: usize)
    requires
        p <= end <= b.len(),
    ensures
        r == ws_at(b@, p as int, end as int),
{
    if p < end && (b[p] == 32 || (9 <= b[p] && b[p] <= 13)) {
        1
    } else if p < end && end - p > 1 && b[p] == 0xC2 && (b[p + 1] == 0x85 || b[p + 1] == 0xA0) {
        2
    } else if p < end && end - p > 2 && is_ws3_exec(b[p], b[p + 1], b[p + 2]) {
        3
    } else {
        0
    }
}

fn is_ws3_exec(x: u8, y: u8, z: u8) -> (r: bool)
    ensures
        r == is_ws3(x, y, z),
{
    (x == 0xE1 && y == 0x9A && z == 0x80) || (x == 0xE2 && y == 0x80 && ((0x80 <= z && z <= 0x8A)
        || z == 0xA8 || z == 0xA9 || z == 0xAF)) || (x == 0xE2 && y == 0x81 && z == 0x9F) || (x
        == 0xE3 && y == 0x80 && z == 0x80)
}

pub fn ws_len_before(b: &[u8], start: usize, q: usize) -> (r: usize)
    requires
        start <= q <= b.len(),
    ensures
        r == ws_before(b@, start as int, q as int),
{
    if q - start >= 1 && (b[q - 1] == 32 || (9 <= b[q - 1] && b[q - 1] <= 13)) {
        1
    } else if q - start >= 2 && b[q - 2] == 0xC2 && (b[q - 1] == 0x85 || b[q - 1] == 0xA0) {
        2
    } else if q - start >= 3 && is_ws3_exec(b[q - 3], b[q - 2], b[q - 1]) {
        3
    } else {
        0
    }
}

pub fn skip_ws_exec(b: &[u8], p: usize, end: usize) -> (r: usize)
    requires
        p <= end <= b.len(),
    ensures
        r == skip_ws(b@, p as int, end as int),
        p <= r <= end,
{
    proof {
        lemma_skip_ws(b@, p as int, end as int);
    }
    let mut k = p;
    loop
        invariant
            p <= k <= end <= b.len(),
            skip_ws(b@, p as int, end as int) == skip_ws(b@, k as int, end as int),
        decreases end - k,
    {
        let w = ws_len(b, k, end);
        if w == 0 {
            return k;
        }
        k = k + w;
    }
}

pub fn skip_ws_back_exec(b: &[u8], start: usize, q: usize) -> (r: usize)
    requires
        start <= q <= b.len(),
    ensures
        r == skip_ws_back(b@, start as int, q as int),
        start <= r <= q,
{
    proof {
        lemma_skip_ws_back(b@, start as int, q as int);
    }
    let mut k = q;
    loop
        invariant
            start <= k <= q <= b.len(),
            skip_ws_back(b@, start as int, q as int) == skip_ws_back(b@, start as int, k as int),
        decreases k - start,
    {
        let w = ws_len_before(b, start, k);
        if w == 0 {
            return k;
        }
        k = k - w;
    }
}

/// The bounds of `b[a..e].trim()`.
pub fn trim_range(b: &[u8], a: usize, e: usize) -> (r: (usize, usize))
    requires
        a <= e <= b.len(),
    ensures
        (r.0 as int, r.1 as int) == trimmed(b@, a as int, e as int),
        a <= r.0 <= r.1 <= e,
{
    let s = skip_ws_exec(b, a, e);
    let t = skip_ws_back_exec(b, s, e);
    (s, t)
}

pub fn blank(b: &[u8], a: usize, e: usize) -> (r: bool)
    requires
        a <= e <= b.len(),
    ensures
        r == is_blank(b@, a as int, e as int),
{
    skip_ws_exec(b, a, e) >= e
}

// ---------------------------------------------------------------------------
// Character boundaries
// ---------------------------------------------------------------------------

/// Byte offsets `a..e` delimit whole characters of `b`.
pub open spec fn slice_ok(b: Seq<u8>, a: int, e: int) -> bool {
    &&& 0 <= a <= e <= b.len()
    &&& is_char_boundary(b, a)
    &&& is_char_boundary(b, e)
}

pub proof fn lemma_boundary_ascii(b: Seq<u8>, p: int)
    requires
        valid_utf8(b),
        0 <= p < b.len(),
        b[p] < 0x80,
    ensures
        is_char_boundary(b, p),
{
    is_char_boundary_iff_not_is_continuation_byte(b, p);
}

pub proof fn lemma_boundary_ends(b: Seq<u8>)
    requires
        valid_utf8(b),
    ensures
        is_char_boundary(b, 0),
        is_char_boundary(b, b.len() as int),
{
    is_char_boundary_start_end_of_seq(b);
}

/// The character starting at boundary `p` ends at another boundary.
pub proof fn lemma_next_boundary(b: Seq<u8>, p: int)
    requires
        valid_utf8(b),
        0 <= p < b.len(),
        is_char_boundary(b, p),
    ensures
        0 < length_of_first_scalar(b.subrange(p, b.len() as int)),
        p + length_of_first_scalar(b.subrange(p, b.len() as int)) <= b.len(),
        is_char_boundary(b, p + length_of_first_scalar(b.subrange(p, b.len() as int))),
    decreases b.len(),
{
    let l = length_of_first_scalar(b);
    let rest = pop_first_scalar(b);
    assert(valid_first_scalar(b) && valid_utf8(rest));
    if p == 0 {
        assert(b.subrange(0, b.len() as int) =~= b);
        assert(is_char_boundary(rest, 0));
        assert(is_char_boundary(b, l));
    } else {
        assert(is_char_boundary(rest, p - l));
        lemma_next_boundary(rest, p - l);
        assert(rest.subrange(p - l, rest.len() as int) =~= b.subrange(p, b.len() as int));
        let k = length_of_first_scalar(b.subrange(p, b.len() as int));
        assert(is_char_boundary(rest, p + k - l));
        assert(is_char_boundary(b, p + k));
    }
}

/// The position just after an ASCII byte is a boundary.
pub proof fn lemma_boundary_after_ascii(b: Seq<u8>, p: int)
    requires
        valid_utf8(b),
        0 < p <= b.len(),
        b[p - 1] < 0x80,
    ensures
        is_char_boundary(b, p),
{
    lemma_boundary_ascii(b, p - 1);
    lemma_next_boundary(b, p - 1);
    assert(b.subrange(p - 1, b.len() as int)[0] == b[p - 1]);
}

/// Skipping a white-space character keeps to boundaries.
pub proof fn lemma_boundary_after_ws(b: Seq<u8>, p: int, end: int)
    requires
        valid_utf8(b),
        0 <= p,
        end <= b.len(),
        is_char_boundary(b, p),
        ws_at(b, p, end) > 0,
    ensures
        is_char_boundary(b, p + ws_at(b, p, end)),
{
    lemma_next_boundary(b, p);
    assert(b.subrange(p, b.len() as int)[0] == b[p]);
}

pub proof fn lemma_skip_ws_boundary(b: Seq<u8>, p: int, end: int)
    requires
        valid_utf8(b),
        0 <= p <= end <= b.len(),
        is_char_boundary(b, p),
    ensures
        is_char_boundary(b, skip_ws(b, p, end)),
    decreases end - p,
{
    if ws_at(b, p, end) > 0 {
        lemma_boundary_after_ws(b, p, end);
        lemma_skip_ws_boundary(b, p + ws_at(b, p, end), end);
    }
}

/// A white-space character that ends at a boundary also starts at one.
pub proof fn lemma_boundary_before_ws(b: Seq<u8>, start: int, q: int)
    requires
        valid_utf8(b),
        0 <= start <= q <= b.len(),
        ws_before(b, start, q) > 0,
    ensures
        is_char_boundary(b, q - ws_before(b, start, q)),
{
    let k = ws_before(b, start, q);
    is_char_boundary_iff_not_is_continuation_byte(b, q - k);
}

pub proof fn lemma_skip_ws_back_boundary(b: Seq<u8>, start: int, q: int)
    requires
        valid_utf8(b),
        0 <= start <= q <= b.len(),
        is_char_boundary(b, q),
    ensures
        is_char_boundary(b, skip_ws_back(b, start, q)),
    decreases q - start,
{
    if ws_before(b, start, q) > 0 {
        lemma_boundary_before_ws(b, start, q);
        lemma_skip_ws_back_boundary(b, start, q - ws_before(b, start, q));
    }
}

pub proof fn lemma_trimmed_ok(b: Seq<u8>, a: int, e: int)
    requires
        valid_utf8(b),
        slice_ok(b, a, e),
    ensures
        slice_ok(b, trimmed(b, a, e).0, trimmed(b, a, e).1),
        a <= trimmed(b, a, e).0,
        trimmed(b, a, e).1 <= e,
{
    lemma_skip_ws(b, a, e);
    lemma_skip_ws_boundary(b, a, e);
    let s = skip_ws(b, a, e);
    lemma_skip_ws_back(b, s, e);
    lemma_skip_ws_back_boundary(b, s, e);
}

proof fn lemma_suffix_boundary(b: Seq<u8>, a: int, e: int)
    requires
        valid_utf8(b),
        slice_ok(b, a, e),
    ensures
        valid_utf8(b.subrange(a, b.len() as int)),
        is_char_boundary(b.subrange(a, b.len() as int), e - a),
{
    valid_utf8_split(b, a);
    let sub = b.subrange(a, b.len() as int);
    if e == b.len() {
        is_char_boundary_start_end_of_seq(sub);
    } else {
        is_char_boundary_iff_not_is_continuation_byte(b, e);
        is_char_boundary_iff_not_is_continuation_byte(sub, e - a);
    }
}

/// `s[a..e]`, for offsets on character boundaries.
pub fn substr(s: &str, a: usize, e: usize) -> (r: &str)
    requires
        slice_ok(s.spec_bytes(), a as int, e as int),
    ensures
        r.spec_bytes() == s.spec_bytes().subrange(a as int, e as int),
{
    proof {
        encode_utf8_valid_utf8(s@);
        lemma_suffix_boundary(s.spec_bytes(), a as int, e as int);
    }
    let (_head, tail) = s.split_at(a);
    let (mid, _rest) = tail.split_at(e - a);
    proof {
        assert(mid.spec_bytes() =~= s.spec_bytes().subrange(a as int, e as int));
    }
    mid
}

// ---------------------------------------------------------------------------
// Building strings, specified by their UTF-8 bytes
// ---------------------------------------------------------------------------

pub proof fn lemma_encode_concat(x: Seq<char>, y: Seq<char>)
    ensures
        encode_utf8(x + y) == encode_utf8(x) + encode_utf8(y),
    decreases x.len(),
{
    if x.len() == 0 {
        assert(x + y =~= y);
        assert(encode_utf8(x) =~= Seq::<u8>::empty());
        assert(encode_utf8(x) + encode_utf8(y) =~= encode_utf8(y));
    } else {
        lemma_encode_concat(x.drop_first(), y);
        assert((x + y).drop_first() =~= x.drop_first() + y);
        assert((x + y)[0] == x[0]);
        assert(encode_utf8(x + y) =~= encode_utf8(x) + encode_utf8(y));
    }
}

/// Equal encodings mean equal text.
pub proof fn lemma_encode_injective(x: Seq<char>, y: Seq<char>)
    requires
        encode_utf8(x) == encode_utf8(y),
    ensures
        x == y,
{
    encode_utf8_decode_utf8(x);
    encode_utf8_decode_utf8(y);
}

/// The UTF-8 bytes of a string.
pub open spec fn utf8_of(s: &String) -> Seq<u8> {
    encode_utf8(s@)
}

pub fn new_string() -> (r: String)
    ensures
        utf8_of(&r) == Seq::<u8>::empty(),
{
    let r = String::new();
    proof {
        assert(encode_utf8(r@) =~= Seq::<u8>::empty());
    }
    r
}

/// Appends `piece`; the bytes of the result are the old bytes then `piece`'s.
pub fn append(out: &mut String, piece: &str)
    ensures
        utf8_of(final(out)) == utf8_of(old(out)) + piece.spec_bytes(),
{
    out.append(piece);
    proof {
        lemma_encode_concat(old(out)@, piece@);
    }
}

/// The first position in `from..` where `lit` occurs wholly before `to`.
pub open spec fn first_match_in(b: Seq<u8>, lit: Seq<u8>, from: int, to: int) -> Option<int>
    decreases to + 1 - from,
{
    if from < 0 || from + lit.len() > to {
        None
    } else if matches_at(b, from, lit) {
        Some(from)
    } else {
        first_match_in(b, lit, from + 1, to)
    }
}

pub proof fn lemma_first_match_in(b: Seq<u8>, lit: Seq<u8>, from: int, to: int)
    requires
        0 <= from,
        lit.len() > 0,
    ensures
        first_match_in(b, lit, from, to) matches Some(p) ==> from <= p && p + lit.len() <= to
            && matches_at(b, p, lit),
    decreases to + 1 - from,
{
    if from + lit.len() <= to && !matches_at(b, from, lit) {
        lemma_first_match_in(b, lit, from + 1, to);
    }
}

pub fn find_lit_in(b: &[u8], lit: &[u8], from: usize, to: usize) -> (r: Option<usize>)
    requires
        from <= to <= b.len(),
    ensures
        r matches Some(p) ==> first_match_in(b@, lit@, from as int, to as int) == Some(p as int),
        r is None ==> first_match_in(b@, lit@, from as int, to as int) is None,
{
    let mut k = from;
    while k <= to && lit.len() <= to - k
        invariant
            from <= k,
            to <= b.len(),
            first_match_in(b@, lit@, from as int, to as int) == first_match_in(
                b@,
                lit@,
                k as int,
                to as int,
            ),
        decreases to + 1 - k,
    {
        if bytes_match_at(b, k, lit) {
            return Some(k);
        }
        k += 1;
    }
    None
}

/// `b[a..e]` with ASCII letters lowercased.
pub open spec fn lowered(b: Seq<u8>, a: int, e: int) -> Seq<u8> {
    Seq::new((e - a) as nat, |k: int| lower(b[a + k]))
}

pub open spec fn alphabet() -> Seq<u8> {
    Seq::new(26, |k: int| (97 + k) as u8)
}

proof fn lemma_alphabet()
    ensures
        "abcdefghijklmnopqrstuvwxyz".spec_bytes() == alphabet(),
        valid_utf8(alphabet()),
{
    reveal_strlit("abcdefghijklmnopqrstuvwxyz");
    let s = "abcdefghijklmnopqrstuvwxyz";
    assert(is_ascii(s));
    is_ascii_spec_bytes(s);
    assert(s.spec_bytes() =~= alphabet());
    encode_utf8_valid_utf8(s@);
}

/// Appends `src[a..e]` with ASCII letters lowercased.
pub fn push_lowered(out: &mut String, src: &str, a: usize, e: usize)
    requires
        slice_ok(src.spec_bytes(), a as int, e as int),
    ensures
        utf8_of(final(out)) == utf8_of(old(out)) + lowered(src.spec_bytes(), a as int, e as int),
{
    let ghost b = src.spec_bytes();
    let alpha = "abcdefghijklmnopqrstuvwxyz";
    proof {
        lemma_alphabet();
        encode_utf8_valid_utf8(src@);
    }
    let bytes = src.as_bytes();
    let mut run = a;
    let mut k = a;
    while k < e
        invariant
            b == src.spec_bytes(),
            bytes@ == b,
            valid_utf8(b),
            alpha.spec_bytes() == alphabet(),
            valid_utf8(alphabet()),
            slice_ok(b, a as int, e as int),
            a <= run <= k <= e,
            is_char_boundary(b, run as int),
            utf8_of(out) == utf8_of(old(out)) + lowered(b, a as int, run as int),
            forall|q: int| run <= q < k ==> !(65 <= #[trigger] b[q] && b[q] <= 90),
        decreases e - k,
    {
        let c = bytes[k];
        if 65 <= c && c <= 90 {
            proof {
                lemma_boundary_ascii(b, k as int);
                lemma_boundary_after_ascii(b, k + 1);
            }
            push_slice_raw(out, src, run, k);
            let j = (c - 65) as usize;
            proof {
                let al = alphabet();
                if j > 0 {
                    lemma_boundary_ascii(al, j as int);
                } else {
                    lemma_boundary_ends(al);
                }
                lemma_boundary_after_ascii(al, j + 1);
            }
            let letter = substr(alpha, j, j + 1);
            append(out, letter);
            proof {
                assert(lowered(b, a as int, (k + 1) as int) =~= lowered(b, a as int, run as int)
                    + b.subrange(run as int, k as int) + alphabet().subrange(j as int, j + 1));
            }
            run = k + 1;
        }
        k += 1;
    }
    push_slice_raw(out, src, run, e);
    proof {
        assert(lowered(b, a as int, e as int) =~= lowered(b, a as int, run as int) + b.subrange(
            run as int,
            e as int,
        ));
    }
}

/// Appends `src[a..e]`.
pub fn push_slice_raw(out: &mut String, src: &str, a: usize, e: usize)
    requires
        slice_ok(src.spec_bytes(), a as int, e as int),
    ensures
        utf8_of(final(out)) == utf8_of(old(out)) + src.spec_bytes().subrange(a as int, e as int),
{
    let piece = substr(src, a, e);
    append(out, piece);
}

/// The 128 ASCII characters, in order.
pub open spec fn ascii_table() -> Seq<u8> {
    Seq::new(128, |k: int| k as u8)
}

proof fn lemma_ascii_table()
    ensures
        "\u{0}\u{1}\u{2}\u{3}\u{4}\u{5}\u{6}\u{7}\u{8}\u{9}\u{a}\u{b}\u{c}\u{d}\u{e}\u{f}\u{10}\u{11}\u{12}\u{13}\u{14}\u{15}\u{16}\u{17}\u{18}\u{19}\u{1a}\u{1b}\u{1c}\u{1d}\u{1e}\u{1f}\u{20}\u{21}\u{22}\u{23}\u{24}\u{25}\u{26}\u{27}\u{28}\u{29}\u{2a}\u{2b}\u{2c}\u{2d}\u{2e}\u{2f}\u{30}\u{31}\u{32}\u{33}\u{34}\u{35}\u{36}\u{37}\u{38}\u{39}\u{3a}\u{3b}\u{3c}\u{3d}\u{3e}\u{3f}\u{40}\u{41}\u{42}\u{43}\u{44}\u{45}\u{46}\u{47}\u{48}\u{49}\u{4a}\u{4b}\u{4c}\u{4d}\u{4e}\u{4f}\u{50}\u{51}\u{52}\u{53}\u{54}\u{55}\u{56}\u{57}\u{58}\u{59}\u{5a}\u{5b}\u{5c}\u{5d}\u{5e}\u{5f}\u{60}\u{61}\u{62}\u{63}\u{64}\u{65}\u{66}\u{67}\u{68}\u{69}\u{6a}\u{6b}\u{6c}\u{6d}\u{6e}\u{6f}\u{70}\u{71}\u{72}\u{73}\u{74}\u{75}\u{76}\u{77}\u{78}\u{79}\u{7a}\u{7b}\u{7c}\u{7d}\u{7e}\u{7f}".spec_bytes() == ascii_table(),
        valid_utf8(ascii_table()),
{
    reveal_strlit("\u{0}\u{1}\u{2}\u{3}\u{4}\u{5}\u{6}\u{7}\u{8}\u{9}\u{a}\u{b}\u{c}\u{d}\u{e}\u{f}\u{10}\u{11}\u{12}\u{13}\u{14}\u{15}\u{16}\u{17}\u{18}\u{19}\u{1a}\u{1b}\u{1c}\u{1d}\u{1e}\u{1f}\u{20}\u{21}\u{22}\u{23}\u{24}\u{25}\u{26}\u{27}\u{28}\u{29}\u{2a}\u{2b}\u{2c}\u{2d}\u{2e}\u{2f}\u{30}\u{31}\u{32}\u{33}\u{34}\u{35}\u{36}\u{37}\u{38}\u{39}\u{3a}\u{3b}\u{3c}\u{3d}\u{3e}\u{3f}\u{40}\u{41}\u{42}\u{43}\u{44}\u{45}\u{46}\u{47}\u{48}\u{49}\u{4a}\u{4b}\u{4c}\u{4d}\u{4e}\u{4f}\u{50}\u{51}\u{52}\u{53}\u{54}\u{55}\u{56}\u{57}\u{58}\u{59}\u{5a}\u{5b}\u{5c}\u{5d}\u{5e}\u{5f}\u{60}\u{61}\u{62}\u{63}\u{64}\u{65}\u{66}\u{67}\u{68}\u{69}\u{6a}\u{6b}\u{6c}\u{6d}\u{6e}\u{6f}\u{70}\u{71}\u{72}\u{73}\u{74}\u{75}\u{76}\u{77}\u{78}\u{79}\u{7a}\u{7b}\u{7c}\u{7d}\u{7e}\u{7f}");
    let s = "\u{0}\u{1}\u{2}\u{3}\u{4}\u{5}\u{6}\u{7}\u{8}\u{9}\u{a}\u{b}\u{c}\u{d}\u{e}\u{f}\u{10}\u{11}\u{12}\u{13}\u{14}\u{15}\u{16}\u{17}\u{18}\u{19}\u{1a}\u{1b}\u{1c}\u{1d}\u{1e}\u{1f}\u{20}\u{21}\u{22}\u{23}\u{24}\u{25}\u{26}\u{27}\u{28}\u{29}\u{2a}\u{2b}\u{2c}\u{2d}\u{2e}\u{2f}\u{30}\u{31}\u{32}\u{33}\u{34}\u{35}\u{36}\u{37}\u{38}\u{39}\u{3a}\u{3b}\u{3c}\u{3d}\u{3e}\u{3f}\u{40}\u{41}\u{42}\u{43}\u{44}\u{45}\u{46}\u{47}\u{48}\u{49}\u{4a}\u{4b}\u{4c}\u{4d}\u{4e}\u{4f}\u{50}\u{51}\u{52}\u{53}\u{54}\u{55}\u{56}\u{57}\u{58}\u{59}\u{5a}\u{5b}\u{5c}\u{5d}\u{5e}\u{5f}\u{60}\u{61}\u{62}\u{63}\u{64}\u{65}\u{66}\u{67}\u{68}\u{69}\u{6a}\u{6b}\u{6c}\u{6d}\u{6e}\u{6f}\u{70}\u{71}\u{72}\u{73}\u{74}\u{75}\u{76}\u{77}\u{78}\u{79}\u{7a}\u{7b}\u{7c}\u{7d}\u{7e}\u{7f}";
    assert(is_ascii(s));
    is_ascii_spec_bytes(s);
    assert(s.spec_bytes() =~= ascii_table());
    encode_utf8_valid_utf8(s@);
}

/// Appends the ASCII byte `c`.
pub fn push_ascii_byte(out: &mut String, c: u8)
    requires
        c < 128,
    ensures
        utf8_of(final(out)) == utf8_of(old(out)) + seq![c],
{
    let table = "\u{0}\u{1}\u{2}\u{3}\u{4}\u{5}\u{6}\u{7}\u{8}\u{9}\u{a}\u{b}\u{c}\u{d}\u{e}\u{f}\u{10}\u{11}\u{12}\u{13}\u{14}\u{15}\u{16}\u{17}\u{18}\u{19}\u{1a}\u{1b}\u{1c}\u{1d}\u{1e}\u{1f}\u{20}\u{21}\u{22}\u{23}\u{24}\u{25}\u{26}\u{27}\u{28}\u{29}\u{2a}\u{2b}\u{2c}\u{2d}\u{2e}\u{2f}\u{30}\u{31}\u{32}\u{33}\u{34}\u{35}\u{36}\u{37}\u{38}\u{39}\u{3a}\u{3b}\u{3c}\u{3d}\u{3e}\u{3f}\u{40}\u{41}\u{42}\u{43}\u{44}\u{45}\u{46}\u{47}\u{48}\u{49}\u{4a}\u{4b}\u{4c}\u{4d}\u{4e}\u{4f}\u{50}\u{51}\u{52}\u{53}\u{54}\u{55}\u{56}\u{57}\u{58}\u{59}\u{5a}\u{5b}\u{5c}\u{5d}\u{5e}\u{5f}\u{60}\u{61}\u{62}\u{63}\u{64}\u{65}\u{66}\u{67}\u{68}\u{69}\u{6a}\u{6b}\u{6c}\u{6d}\u{6e}\u{6f}\u{70}\u{71}\u{72}\u{73}\u{74}\u{75}\u{76}\u{77}\u{78}\u{79}\u{7a}\u{7b}\u{7c}\u{7d}\u{7e}\u{7f}";
    proof {
        lemma_ascii_table();
        let t = ascii_table();
        if c > 0 {
            lemma_boundary_ascii(t, c as int);
        } else {
            lemma_boundary_ends(t);
        }
        lemma_boundary_after_ascii(t, c + 1);
    }
    let piece = substr(table, c as usize, c as usize + 1);
    append(out, piece);
    proof {
        assert(piece.spec_bytes() =~= seq![c]);
    }
}

/// Whether two byte sequences are equal.
pub fn bytes_eq(x: &[u8], y: &[u8]) -> (r: bool)
    ensures
        r == (x@ == y@),
{
    if x.len() != y.len() {
        return false;
    }
    let mut k: usize = 0;
    while k < x.len()
        invariant
            x@.len() == y@.len(),
            k <= x@.len(),
            x@.subrange(0, k as int) == y@.subrange(0, k as int),
        decreases x.len() - k,
    {
        if x[k] != y[k] {
            return false;
        }
        proof {
            assert(x@.subrange(0, k + 1) =~= x@.subrange(0, k as int).push(x@[k as int]));
            assert(y@.subrange(0, k + 1) =~= y@.subrange(0, k as int).push(y@[k as int]));
        }
        k += 1;
    }
    proof {
        assert(x@.subrange(0, k as int) =~= x@);
        assert(y@.subrange(0, k as int) =~= y@);
    }
    true
}


/// A byte that can occur in white space: ASCII white space, or part of a
/// multi-byte encoding.
pub open spec fn ws_byte(x: u8) -> bool {
    x == 32 || (9 <= x && x <= 13) || x >= 0x80
}

/// Every byte that `trim_start` skips is a white-space byte.
pub proof fn lemma_skip_ws_bytes(b: Seq<u8>, p: int, end: int)
    requires
        0 <= p <= end <= b.len(),
    ensures
        forall|q: int| p <= q < skip_ws(b, p, end) ==> #[trigger] ws_byte(b[q]),
    decreases end - p,
{
    let w = ws_at(b, p, end);
    if w > 0 {
        lemma_skip_ws_bytes(b, p + w, end);
        lemma_skip_ws(b, p + w, end);
        assert forall|q: int| p <= q < skip_ws(b, p, end) implies #[trigger] ws_byte(b[q]) by {
            if q >= p + w {
            } else if w == 1 {
            } else if w == 2 {
                assert(q == p || q == p + 1);
            } else {
                assert(q == p || q == p + 1 || q == p + 2);
            }
        }
    }
}

/// `b[a..e]` is a run of whole white-space characters, read from the end.
pub open spec fn ws_run(b: Seq<u8>, a: int, e: int) -> bool
    decreases e - a,
{
    if e <= a {
        e == a
    } else {
        let w = ws_before(b, a, e);
        w > 0 && ws_run(b, a, e - w)
    }
}

/// What `trim_end` drops is a run of whole white-space characters.
pub proof fn lemma_skip_ws_back_run(b: Seq<u8>, start: int, q: int)
    requires
        0 <= start <= q <= b.len(),
    ensures
        ws_run(b, skip_ws_back(b, start, q), q),
    decreases q - start,
{
    let w = ws_before(b, start, q);
    if w > 0 {
        lemma_skip_ws_back_run(b, start, q - w);
        lemma_skip_ws_back(b, start, q - w);
        let t = skip_ws_back(b, start, q - w);
        assert(ws_before(b, t, q) == w);
    }
}

/// A run of white-space characters stays one after a line break in it:
/// the break ends a character.
pub proof fn lemma_ws_run_after_nl(b: Seq<u8>, a: int, e: int, q: int)
    requires
        0 <= a <= q < e <= b.len(),
        ws_run(b, a, e),
        b[q] == 10,
    ensures
        ws_run(b, q + 1, e),
    decreases e - a,
{
    let w = ws_before(b, a, e);
    if q < e - w {
        lemma_ws_run_after_nl(b, a, e - w, q);
        assert(ws_before(b, q + 1, e) == w);
    } else if w == 1 {
        assert(q + 1 == e);
    } else if w == 2 {
        assert(q == e - 2 || q == e - 1);
    } else {
        assert(q == e - 3 || q == e - 2 || q == e - 1);
    }
}

/// `trim_start` skips all of a run of white-space characters.
pub proof fn lemma_ws_run_skip(b: Seq<u8>, a: int, m: int, e: int)
    requires
        0 <= a <= m <= e <= b.len(),
        ws_run(b, a, m),
        skip_ws(b, m, e) == e,
    ensures
        skip_ws(b, a, e) == e,
    decreases m - a,
{
    if a < m {
        let w = ws_before(b, a, m);
        assert(ws_at(b, m - w, e) == w);
        assert(skip_ws(b, m - w, e) == skip_ws(b, m, e));
        lemma_ws_run_skip(b, a, m - w, e);
    }
}

} // verus!
