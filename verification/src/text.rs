//! Character-level building blocks shared by every parser in the crate.
//!
//! Text is handled as sequences of `char` (the view of a `str` or `String`).
//! Each executable helper is tied to a spec function over `Seq<char>` that
//! says what it computes.

use vstd::prelude::*;
use vstd::utf8::*;

verus! {

// ---------------------------------------------------------------------------
// conversions between std strings and char vectors
// ---------------------------------------------------------------------------

/// The characters of a string slice, in order (`str::chars`, collected).
pub(crate) fn chars_of(s: &str) -> (v: Vec<char>)
    ensures
        v@ == s@,
{
    broadcast use vstd::string::axiom_spec_iter;
    let mut v: Vec<char> = Vec::new();
    for c in it: s.chars()
        invariant
            it.seq() == s@,
            v@ == it.seq().subrange(0, it.index()),
    {
        v.push(c);
        assert(v@ =~= it.seq().subrange(0, it.index() + 1));
    }
    assert(v@ =~= s@);
    v
}

/// A `String` holding exactly the given characters (`FromIterator<char>`).
#[verifier::external_body]
pub(crate) fn string_of(v: &[char]) -> (s: String)
    ensures
        s@ == v@,
{
    v.iter().collect()
}

/// Unicode lowercase mapping of a whole string, as `str::to_lowercase` does it.
pub uninterp spec fn lowercase(s: Seq<char>) -> Seq<char>;

/// `str::to_lowercase`: the full Unicode lowercase mapping of the text.
#[verifier::external_body]
pub(crate) fn to_lower(v: &[char]) -> (r: Vec<char>)
    ensures
        r@ == lowercase(v@),
{
    let s: String = v.iter().collect();
    s.to_lowercase().chars().collect()
}

/// `char::is_alphanumeric`: the Unicode `Alphabetic` property, or one of the
/// general categories for numbers (`Nd`, `Nl`, `No`).
pub uninterp spec fn alphanumeric(c: char) -> bool;

/// `char::is_numeric`: one of the Unicode general categories for numbers
/// (`Nd`, `Nl`, `No`).
pub uninterp spec fn numeric(c: char) -> bool;

pub open spec fn is_ascii_digit(c: char) -> bool {
    '0' <= c && c <= '9'
}

pub open spec fn is_ascii_alnum(c: char) -> bool {
    is_ascii_digit(c) || ('a' <= c && c <= 'z') || ('A' <= c && c <= 'Z')
}

/// `char::is_alphanumeric`. Its documentation also fixes the ASCII range:
/// there, exactly the ASCII letters and digits are alphanumeric.
#[verifier::external_body]
pub(crate) fn is_alphanumeric(c: char) -> (r: bool)
    ensures
        r == alphanumeric(c),
        (c as u32) < 128 ==> (r <==> is_ascii_alnum(c)),
{
    c.is_alphanumeric()
}

/// `char::is_numeric`, true of the general categories for numbers (`Nd`, `Nl`,
/// `No`). In the ASCII range exactly the digits are among them.
#[verifier::external_body]
pub(crate) fn is_numeric(c: char) -> (r: bool)
    ensures
        r == numeric(c),
        (c as u32) < 128 ==> (r <==> is_ascii_digit(c)),
{
    c.is_numeric()
}

/// UTF-8 encoding of a character sequence (`String::into_bytes`).
#[verifier::external_body]
pub(crate) fn utf8_bytes(v: &[char]) -> (b: Vec<u8>)
    ensures
        b@ == encode_utf8(v@),
{
    let s: String = v.iter().collect();
    s.into_bytes()
}

/// `String::from_utf8`: the decoded characters when the bytes are valid UTF-8.
#[verifier::external_body]
pub(crate) fn utf8_chars(b: Vec<u8>) -> (r: Option<Vec<char>>)
    ensures
        r is Some <==> valid_utf8(b@),
        r matches Some(v) ==> v@ == decode_utf8(b@),
{
    match String::from_utf8(b) {
        Ok(s) => Some(s.chars().collect()),
        Err(_) => None,
    }
}

/// An optional index, widened to a mathematical integer.
pub open spec fn opt_int(o: Option<usize>) -> Option<int> {
    match o {
        Some(x) => Some(x as int),
        None => None,
    }
}

// ---------------------------------------------------------------------------
// whitespace
// ---------------------------------------------------------------------------

/// The Unicode `White_Space` property, which `char::is_whitespace` tests.
pub open spec fn is_ws(c: char) -> bool {
    let u = c as u32;
    (0x09 <= u && u <= 0x0D) || u == 0x20 || u == 0x85 || u == 0xA0 || u == 0x1680 || (0x2000
        <= u && u <= 0x200A) || u == 0x2028 || u == 0x2029 || u == 0x202F || u == 0x205F || u
        == 0x3000
}

pub fn is_whitespace(c: char) -> (r: bool)
    ensures
        r == is_ws(c),
{
    let u = c as u32;
    (0x09 <= u && u <= 0x0D) || u == 0x20 || u == 0x85 || u == 0xA0 || u == 0x1680 || (0x2000
        <= u && u <= 0x200A) || u == 0x2028 || u == 0x2029 || u == 0x202F || u == 0x205F || u
        == 0x3000
}

/// Index of the first non-whitespace character at or after `i`.
pub open spec fn skip_ws(s: Seq<char>, i: int) -> int
    decreases s.len() - i,
{
    if 0 <= i < s.len() && is_ws(s[i]) {
        skip_ws(s, i + 1)
    } else {
        i
    }
}

/// One past the last non-whitespace character at or before `j`.
pub open spec fn back_ws(s: Seq<char>, j: int) -> int
    decreases j,
{
    if 0 < j <= s.len() && is_ws(s[j - 1]) {
        back_ws(s, j - 1)
    } else {
        j
    }
}

pub open spec fn trim_start(s: Seq<char>) -> Seq<char> {
    s.subrange(skip_ws(s, 0), s.len() as int)
}

pub open spec fn trim_end(s: Seq<char>) -> Seq<char> {
    s.subrange(0, back_ws(s, s.len() as int))
}

/// `str::trim`: whitespace removed from both ends.
pub open spec fn trim(s: Seq<char>) -> Seq<char> {
    trim_end(trim_start(s))
}

pub proof fn lemma_skip_ws_bounds(s: Seq<char>, i: int)
    requires
        0 <= i <= s.len(),
    ensures
        i <= skip_ws(s, i) <= s.len(),
        skip_ws(s, i) < s.len() ==> !is_ws(s[skip_ws(s, i)]),
        forall|k: int| i <= k < skip_ws(s, i) ==> is_ws(#[trigger] s[k]),
    decreases s.len() - i,
{
    if i < s.len() && is_ws(s[i]) {
        lemma_skip_ws_bounds(s, i + 1);
    }
}

pub proof fn lemma_back_ws_bounds(s: Seq<char>, j: int)
    requires
        0 <= j <= s.len(),
    ensures
        0 <= back_ws(s, j) <= j,
        back_ws(s, j) > 0 ==> !is_ws(s[back_ws(s, j) - 1]),
        forall|k: int| back_ws(s, j) <= k < j ==> is_ws(#[trigger] s[k]),
    decreases j,
{
    if 0 < j && is_ws(s[j - 1]) {
        lemma_back_ws_bounds(s, j - 1);
    }
}

/// A copy of `v[a..b]`.
pub fn slice_of(v: &[char], a: usize, b: usize) -> (r: Vec<char>)
    requires
        a <= b <= v@.len(),
    ensures
        r@ == v@.subrange(a as int, b as int),
{
    let mut r: Vec<char> = Vec::new();
    let mut k = a;
    while k < b
        invariant
            a <= k <= b <= v@.len(),
            r@ == v@.subrange(a as int, k as int),
        decreases b - k,
    {
        r.push(v[k]);
        k += 1;
    }
    r
}

pub fn skip_ws_index(v: &[char], i: usize) -> (r: usize)
    requires
        i <= v@.len(),
    ensures
        r == skip_ws(v@, i as int),
        i <= r <= v@.len(),
{
    let mut k = i;
    while k < v.len() && is_whitespace(v[k])
        invariant
            i <= k <= v@.len(),
            skip_ws(v@, k as int) == skip_ws(v@, i as int),
        decreases v@.len() - k,
    {
        k += 1;
    }
    k
}

pub fn back_ws_index(v: &[char], j: usize) -> (r: usize)
    requires
        j <= v@.len(),
    ensures
        r == back_ws(v@, j as int),
        r <= j,
{
    let mut k = j;
    while k > 0 && is_whitespace(v[k - 1])
        invariant
            k <= j <= v@.len(),
            back_ws(v@, k as int) == back_ws(v@, j as int),
        decreases k,
    {
        k -= 1;
    }
    k
}

pub fn trim_start_vec(v: &[char]) -> (r: Vec<char>)
    ensures
        r@ == trim_start(v@),
{
    let a = skip_ws_index(v, 0);
    slice_of(v, a, v.len())
}

pub fn trim_end_vec(v: &[char]) -> (r: Vec<char>)
    ensures
        r@ == trim_end(v@),
{
    let b = back_ws_index(v, v.len());
    slice_of(v, 0, b)
}

pub fn trim_vec(v: &[char]) -> (r: Vec<char>)
    ensures
        r@ == trim(v@),
{
    let t = trim_start_vec(v);
    trim_end_vec(t.as_slice())
}

/// UTF-8 width of a character.
pub open spec fn char_width(c: char) -> nat {
    let u = c as u32;
    if u < 0x80 {
        1
    } else if u < 0x800 {
        2
    } else if u < 0x10000 {
        3
    } else {
        4
    }
}

/// Number of UTF-8 bytes that encode `s`.
pub open spec fn byte_len(s: Seq<char>) -> nat
    decreases s.len(),
{
    if s.len() == 0 {
        0
    } else {
        byte_len(s.drop_last()) + char_width(s.last())
    }
}

pub proof fn lemma_byte_len_mono(s: Seq<char>, a: int, b: int)
    requires
        0 <= a <= b <= s.len(),
    ensures
        byte_len(s.subrange(0, a)) <= byte_len(s.subrange(0, b)),
    decreases b - a,
{
    if a < b {
        lemma_byte_len_mono(s, a, b - 1);
        assert(s.subrange(0, b).drop_last() =~= s.subrange(0, b - 1));
    }
}

/// UTF-8 width of the leading whitespace of a line (`line.len() -
/// line.trim_start().len()`). The width is summed in a `u128`, which no sum of
/// at most four bytes per character of a slice can overflow.
pub fn indent_bytes(raw: &[char]) -> (r: u128)
    ensures
        r == byte_len(raw@.subrange(0, skip_ws(raw@, 0))),
{
    let n = skip_ws_index(raw, 0);
    let mut w: u128 = 0;
    let mut k: usize = 0;
    while k < n
        invariant
            k <= n <= raw@.len(),
            n <= usize::MAX,
            w == byte_len(raw@.subrange(0, k as int)),
            w <= 4 * k,
        decreases n - k,
    {
        let c = raw[k];
        let u = c as u32;
        let cw: u128 = if u < 0x80 {
            1
        } else if u < 0x800 {
            2
        } else if u < 0x10000 {
            3
        } else {
            4
        };
        assert(raw@.subrange(0, k + 1).drop_last() =~= raw@.subrange(0, k as int));
        assert(raw@.subrange(0, k + 1).last() == c);
        w = w + cw;
        k += 1;
    }
    w
}

// ---------------------------------------------------------------------------
// searching
// ---------------------------------------------------------------------------

/// Index of the first `c` at or after `i`, or the length when there is none.
pub open spec fn find_from(s: Seq<char>, c: char, i: int) -> int
    decreases s.len() - i,
{
    if i >= s.len() {
        s.len() as int
    } else if s[i] == c {
        i
    } else {
        find_from(s, c, i + 1)
    }
}

pub proof fn lemma_find_from(s: Seq<char>, c: char, i: int)
    requires
        0 <= i <= s.len(),
    ensures
        i <= find_from(s, c, i) <= s.len(),
        find_from(s, c, i) < s.len() ==> s[find_from(s, c, i)] == c,
        forall|k: int| i <= k < find_from(s, c, i) ==> #[trigger] s[k] != c,
    decreases s.len() - i,
{
    if i < s.len() && s[i] != c {
        lemma_find_from(s, c, i + 1);
    }
}

pub fn find_char(v: &[char], c: char, i: usize) -> (r: usize)
    requires
        i <= v@.len(),
    ensures
        r == find_from(v@, c, i as int),
        i <= r <= v@.len(),
{
    let mut k = i;
    while k < v.len() && v[k] != c
        invariant
            i <= k <= v@.len(),
            find_from(v@, c, k as int) == find_from(v@, c, i as int),
        decreases v@.len() - k,
    {
        k += 1;
    }
    k
}

/// Number of consecutive `c` starting at `i`.
pub open spec fn run_len(s: Seq<char>, i: int, c: char) -> nat
    decreases s.len() - i,
{
    if 0 <= i < s.len() && s[i] == c {
        1 + run_len(s, i + 1, c)
    } else {
        0
    }
}

pub proof fn lemma_run_len(s: Seq<char>, i: int, c: char)
    requires
        0 <= i <= s.len(),
    ensures
        i + run_len(s, i, c) <= s.len(),
        forall|k: int| i <= k < i + run_len(s, i, c) ==> #[trigger] s[k] == c,
        i + run_len(s, i, c) < s.len() ==> s[i + run_len(s, i, c)] != c,
    decreases s.len() - i,
{
    if i < s.len() && s[i] == c {
        lemma_run_len(s, i + 1, c);
    }
}

pub fn run_length(v: &[char], i: usize, c: char) -> (r: usize)
    requires
        i <= v@.len(),
    ensures
        r == run_len(v@, i as int, c),
        i + r <= v@.len(),
{
    proof {
        lemma_run_len(v@, i as int, c);
    }
    let mut k = i;
    while k < v.len() && v[k] == c
        invariant
            i <= k <= v@.len(),
            run_len(v@, i as int, c) == (k - i) + run_len(v@, k as int, c),
        decreases v@.len() - k,
    {
        k += 1;
    }
    k - i
}

/// Whether `needle` occurs in `hay` starting at `i`.
pub open spec fn occurs_at(hay: Seq<char>, needle: Seq<char>, i: int) -> bool {
    0 <= i && i + needle.len() <= hay.len() && hay.subrange(i, i + needle.len()) == needle
}

/// `str::contains` for a string pattern.
pub open spec fn contains_seq(hay: Seq<char>, needle: Seq<char>) -> bool {
    exists|i: int| occurs_at(hay, needle, i)
}

pub fn occurs_at_exec(hay: &[char], needle: &[char], i: usize) -> (r: bool)
    ensures
        r == occurs_at(hay@, needle@, i as int),
{
    if i > hay.len() || needle.len() > hay.len() - i {
        return false;
    }
    let mut k: usize = 0;
    while k < needle.len()
        invariant
            i + needle.len() <= hay.len(),
            needle@.len() == needle.len(),
            hay@.len() == hay.len(),
            k <= needle@.len(),
            forall|m: int| 0 <= m < k ==> hay@[i + m] == needle@[m],
        decreases needle@.len() - k,
    {
        if hay[i + k] != needle[k] {
            assert(hay@.subrange(i as int, i + needle@.len())[k as int] != needle@[k as int]);
            return false;
        }
        k += 1;
    }
    assert(hay@.subrange(i as int, i + needle@.len()) =~= needle@);
    true
}

pub fn contains(hay: &[char], needle: &[char]) -> (r: bool)
    ensures
        r == contains_seq(hay@, needle@),
{
    let mut i: usize = 0;
    loop
        invariant
            i <= hay@.len(),
            forall|k: int| 0 <= k < i ==> !occurs_at(hay@, needle@, k),
        ensures
            forall|k: int| 0 <= k <= hay@.len() ==> !occurs_at(hay@, needle@, k),
        decreases hay@.len() - i,
    {
        if occurs_at_exec(hay, needle, i) {
            return true;
        }
        if i == hay.len() {
            break;
        }
        i += 1;
    }
    assert(forall|k: int| k > hay@.len() ==> !occurs_at(hay@, needle@, k));
    false
}

pub fn starts_with(s: &[char], p: &[char]) -> (r: bool)
    ensures
        r == occurs_at(s@, p@, 0),
{
    occurs_at_exec(s, p, 0)
}

pub open spec fn ends_with_seq(s: Seq<char>, p: Seq<char>) -> bool {
    p.len() <= s.len() && occurs_at(s, p, s.len() - p.len())
}

pub fn ends_with(s: &[char], p: &[char]) -> (r: bool)
    ensures
        r == ends_with_seq(s@, p@),
{
    if p.len() > s.len() {
        false
    } else {
        occurs_at_exec(s, p, s.len() - p.len())
    }
}

pub fn vec_eq(a: &[char], b: &[char]) -> (r: bool)
    ensures
        r == (a@ == b@),
{
    if a.len() != b.len() {
        return false;
    }
    let r = occurs_at_exec(a, b, 0);
    assert(r ==> a@.subrange(0, b@.len() as int) =~= a@);
    if !r {
        assert(a@.subrange(0, b@.len() as int) =~= a@);
    }
    r
}

/// Removal of every leading `c` (`str::trim_start_matches` with a char).
pub open spec fn trim_start_char(s: Seq<char>, c: char) -> Seq<char> {
    s.subrange(run_len(s, 0, c) as int, s.len() as int)
}

/// One past the last character that is not `c`, scanning back from `j`.
pub open spec fn back_char(s: Seq<char>, c: char, j: int) -> int
    decreases j,
{
    if 0 < j <= s.len() && s[j - 1] == c {
        back_char(s, c, j - 1)
    } else {
        j
    }
}

/// Removal of every trailing `c` (`str::trim_end_matches` with a char).
pub open spec fn trim_end_char(s: Seq<char>, c: char) -> Seq<char> {
    s.subrange(0, back_char(s, c, s.len() as int))
}

pub proof fn lemma_back_char(s: Seq<char>, c: char, j: int)
    requires
        0 <= j <= s.len(),
    ensures
        0 <= back_char(s, c, j) <= j,
    decreases j,
{
    if 0 < j && s[j - 1] == c {
        lemma_back_char(s, c, j - 1);
    }
}

pub fn trim_start_char_vec(v: &[char], c: char) -> (r: Vec<char>)
    ensures
        r@ == trim_start_char(v@, c),
{
    let n = run_length(v, 0, c);
    slice_of(v, n, v.len())
}

pub fn trim_end_char_vec(v: &[char], c: char) -> (r: Vec<char>)
    ensures
        r@ == trim_end_char(v@, c),
{
    let mut k = v.len();
    while k > 0 && v[k - 1] == c
        invariant
            k <= v@.len(),
            back_char(v@, c, k as int) == back_char(v@, c, v@.len() as int),
        decreases k,
    {
        k -= 1;
    }
    slice_of(v, 0, k)
}

// ---------------------------------------------------------------------------
// lines
// ---------------------------------------------------------------------------

/// A line's text without its `\n`, and without a `\r` just before that `\n`.
pub open spec fn line_text(s: Seq<char>, i: int, e: int) -> Seq<char> {
    if e < s.len() && e > i && s[e - 1] == '\r' {
        s.subrange(i, e - 1)
    } else {
        s.subrange(i, e)
    }
}

/// `str::lines` from position `i`: split at `\n`, a `\r\n` ending counts as
/// one ending, and a final ending adds no empty line.
pub open spec fn lines_from(s: Seq<char>, i: int) -> Seq<Seq<char>>
    decreases s.len() - i,
{
    if i < 0 || i >= s.len() {
        seq![]
    } else {
        let e = find_from(s, '\n', i);
        proof {
            lemma_find_from(s, '\n', i);
        }
        if e >= s.len() {
            seq![line_text(s, i, e)]
        } else {
            seq![line_text(s, i, e)] + lines_from(s, e + 1)
        }
    }
}

pub open spec fn lines(s: Seq<char>) -> Seq<Seq<char>> {
    lines_from(s, 0)
}

pub fn split_lines(v: &[char]) -> (r: Vec<Vec<char>>)
    ensures
        r@.map_values(|l: Vec<char>| l@) == lines(v@),
{
    let mut out: Vec<Vec<char>> = Vec::new();
    let mut i: usize = 0;
    while i < v.len()
        invariant
            i <= v@.len(),
            out@.map_values(|l: Vec<char>| l@) + lines_from(v@, i as int) == lines(v@),
        decreases v@.len() - i,
    {
        let e = find_char(v, '\n', i);
        proof {
            lemma_find_from(v@, '\n', i as int);
        }
        let line = if e < v.len() && e > i && v[e - 1] == '\r' {
            slice_of(v, i, e - 1)
        } else {
            slice_of(v, i, e)
        };
        let ghost before = out@.map_values(|l: Vec<char>| l@);
        out.push(line);
        assert(out@.map_values(|l: Vec<char>| l@) =~= before.push(line_text(v@, i as int, e as int)));
        if e >= v.len() {
            assert(lines_from(v@, i as int) == seq![line_text(v@, i as int, e as int)]);
            assert(out@.map_values(|l: Vec<char>| l@) + lines_from(v@, v@.len() as int)
                =~= out@.map_values(|l: Vec<char>| l@));
            assert(before + lines_from(v@, i as int) =~= out@.map_values(|l: Vec<char>| l@));
            i = v.len();
        } else {
            assert(lines_from(v@, i as int) == seq![line_text(v@, i as int, e as int)] + lines_from(
                v@,
                e + 1,
            ));
            assert(before + lines_from(v@, i as int) =~= before.push(
                line_text(v@, i as int, e as int),
            ) + lines_from(v@, e + 1));
            i = e + 1;
        }
    }
    assert(lines_from(v@, i as int) =~= Seq::<Seq<char>>::empty());
    assert(out@.map_values(|l: Vec<char>| l@) + lines_from(v@, i as int)
        =~= out@.map_values(|l: Vec<char>| l@));
    out
}

// ---------------------------------------------------------------------------
// lexicographic order
// ---------------------------------------------------------------------------

/// Lexicographic order on character sequences. Because UTF-8 preserves code
/// point order, this is the order `String`'s `Ord` uses.
pub open spec fn seq_lt(a: Seq<char>, b: Seq<char>) -> bool
    decreases a.len(),
{
    if b.len() == 0 {
        false
    } else if a.len() == 0 {
        true
    } else if a[0] != b[0] {
        a[0] < b[0]
    } else {
        seq_lt(a.drop_first(), b.drop_first())
    }
}

pub fn lt(a: &[char], b: &[char]) -> (r: bool)
    ensures
        r == seq_lt(a@, b@),
{
    let mut k: usize = 0;
    assert(a@.subrange(0, a@.len() as int) =~= a@);
    assert(b@.subrange(0, b@.len() as int) =~= b@);
    while k < a.len() && k < b.len() && a[k] == b[k]
        invariant
            k <= a@.len(),
            k <= b@.len(),
            seq_lt(a@, b@) == seq_lt(a@.subrange(k as int, a@.len() as int), b@.subrange(k as int, b@.len() as int)),
        decreases a@.len() - k,
    {
        assert(a@.subrange(k as int, a@.len() as int).drop_first() =~= a@.subrange(k + 1, a@.len() as int));
        assert(b@.subrange(k as int, b@.len() as int).drop_first() =~= b@.subrange(k + 1, b@.len() as int));
        k += 1;
    }
    if k == b.len() {
        false
    } else if k == a.len() {
        true
    } else {
        a[k] < b[k]
    }
}

pub proof fn lemma_lt_irreflexive(a: Seq<char>)
    ensures
        !seq_lt(a, a),
    decreases a.len(),
{
    if a.len() > 0 {
        lemma_lt_irreflexive(a.drop_first());
    }
}

pub proof fn lemma_lt_trichotomy(a: Seq<char>, b: Seq<char>)
    ensures
        seq_lt(a, b) || seq_lt(b, a) || a == b,
    decreases a.len(),
{
    if a.len() > 0 && b.len() > 0 && a[0] == b[0] {
        lemma_lt_trichotomy(a.drop_first(), b.drop_first());
        if a.drop_first() == b.drop_first() {
            assert(a =~= seq![a[0]] + a.drop_first());
            assert(b =~= seq![b[0]] + b.drop_first());
        }
    } else if a.len() == 0 && b.len() == 0 {
        assert(a =~= b);
    }
}

pub proof fn lemma_lt_asymmetric(a: Seq<char>, b: Seq<char>)
    ensures
        seq_lt(a, b) ==> !seq_lt(b, a),
    decreases a.len(),
{
    if a.len() > 0 && b.len() > 0 && a[0] == b[0] {
        lemma_lt_asymmetric(a.drop_first(), b.drop_first());
    }
}

pub proof fn lemma_lt_transitive(a: Seq<char>, b: Seq<char>, c: Seq<char>)
    requires
        seq_lt(a, b),
        seq_lt(b, c),
    ensures
        seq_lt(a, c),
    decreases a.len(),
{
    if a.len() > 0 && b.len() > 0 && c.len() > 0 && a[0] == b[0] && b[0] == c[0] {
        lemma_lt_transitive(a.drop_first(), b.drop_first(), c.drop_first());
    }
}

} // verus!
