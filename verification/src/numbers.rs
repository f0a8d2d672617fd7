//! Recognition of number literals in frontmatter text: the grammar that
//! `str::parse::<i64>` and the floating-point `str::parse` accept, decided on
//! the characters alone.

use vstd::prelude::*;

use crate::text::{chars_of, lt, run_len, run_length, seq_lt, slice_of, is_ascii_digit};
use crate::yaml::{eq_ignore_case, eq_ignore_case_exec, digits_value};

verus! {

/// The least decimal value that rounds to infinity in IEEE binary64:
/// 2^1024 - 2^970, written out in full (309 digits).
pub const OVERFLOW_THRESHOLD: &'static str = "179769313486231580793728971405303415079934132710037826936173778980444968292764750946649017977587207096330286416692887910946555547851940402630657488671505820681908902000708383676273854845817711531764475730270069855571366959622842914819860834936475292719074168444365510704342711559699508093042880177904174497792";

/// Number of consecutive ASCII digits from `i`.
pub open spec fn digit_run(t: Seq<char>, i: int) -> nat
    decreases t.len() - i,
{
    if 0 <= i < t.len() && is_ascii_digit(t[i]) {
        1 + digit_run(t, i + 1)
    } else {
        0
    }
}

proof fn lemma_digit_run(t: Seq<char>, i: int)
    requires
        0 <= i <= t.len(),
    ensures
        i + digit_run(t, i) <= t.len(),
        forall|k: int| i <= k < i + digit_run(t, i) ==> is_ascii_digit(#[trigger] t[k]),
    decreases t.len() - i,
{
    if i < t.len() && is_ascii_digit(t[i]) {
        lemma_digit_run(t, i + 1);
    }
}

fn digit_run_exec(t: &[char], i: usize) -> (r: usize)
    requires
        i <= t@.len(),
    ensures
        r == digit_run(t@, i as int),
        i + r <= t@.len(),
{
    proof {
        lemma_digit_run(t@, i as int);
    }
    let mut k = i;
    while k < t.len() && '0' <= t[k] && t[k] <= '9'
        invariant
            i <= k <= t@.len(),
            digit_run(t@, i as int) == (k - i) + digit_run(t@, k as int),
        decreases t@.len() - k,
    {
        k += 1;
    }
    k - i
}

pub open spec fn sign_len(t: Seq<char>) -> int {
    if t.len() > 0 && (t[0] == '+' || t[0] == '-') {
        1
    } else {
        0
    }
}

/// Where the parts of a decimal literal lie: `[sign] digits [. digits]
/// [(e|E) [sign] digits]`.
pub struct DecimalShape {
    /// End of the integer digits.
    pub int_end: int,
    /// Start and end of the fraction digits (equal when there are none).
    pub frac_start: int,
    pub frac_end: int,
    /// Whether an exponent follows, its sign and its digits.
    pub has_exp: bool,
    pub exp_negative: bool,
    pub exp_start: int,
    pub exp_end: int,
}

pub open spec fn decimal_shape(t: Seq<char>) -> DecimalShape {
    let s = sign_len(t);
    let i1 = s + digit_run(t, s);
    let has_dot = i1 < t.len() && t[i1] == '.';
    let fs = if has_dot {
        i1 + 1
    } else {
        i1
    };
    let fe = fs + if has_dot {
        digit_run(t, i1 + 1)
    } else {
        0
    };
    let has_exp = fe < t.len() && (t[fe] == 'e' || t[fe] == 'E');
    let es_len = if has_exp && fe + 1 < t.len() && (t[fe + 1] == '+' || t[fe + 1] == '-') {
        1int
    } else {
        0
    };
    let es = fe + 1 + es_len;
    DecimalShape {
        int_end: i1,
        frac_start: fs,
        frac_end: fe,
        has_exp,
        exp_negative: es_len == 1 && t[fe + 1] == '-',
        exp_start: es,
        exp_end: es + digit_run(t, es),
    }
}

/// A decimal literal as the floating-point parser of `str::parse` accepts it.
pub open spec fn is_decimal(t: Seq<char>) -> bool {
    let d = decimal_shape(t);
    let digits = (d.int_end - sign_len(t)) + (d.frac_end - d.frac_start);
    digits > 0 && if d.has_exp {
        d.exp_end > d.exp_start && d.exp_end == t.len()
    } else {
        d.frac_end == t.len()
    }
}

pub open spec fn word_inf() -> Seq<char> {
    seq!['i', 'n', 'f']
}

pub open spec fn word_infinity() -> Seq<char> {
    seq!['i', 'n', 'f', 'i', 'n', 'i', 't', 'y']
}

pub open spec fn word_nan() -> Seq<char> {
    seq!['n', 'a', 'n']
}

/// `inf`, `infinity` or `nan` in any ASCII case, after an optional sign.
pub open spec fn is_special(t: Seq<char>) -> bool {
    let r = t.subrange(sign_len(t), t.len() as int);
    eq_ignore_case(r, word_inf()) || eq_ignore_case(r, word_infinity()) || eq_ignore_case(
        r,
        word_nan(),
    )
}

/// Whether the floating-point `str::parse` accepts the text.
pub open spec fn float_literal(t: Seq<char>) -> bool {
    is_special(t) || is_decimal(t)
}

/// Significant digits and decimal position of a decimal literal: its value is
/// `0.S × 10^k` with `S` the digits after leading zeros are dropped.
pub open spec fn significand(t: Seq<char>) -> Seq<char> {
    let d = decimal_shape(t);
    let all = t.subrange(sign_len(t), d.int_end) + t.subrange(d.frac_start, d.frac_end);
    all.subrange(run_len(all, 0, '0') as int, all.len() as int)
}

pub open spec fn exponent_value(t: Seq<char>) -> int {
    let d = decimal_shape(t);
    let v = digits_value(t.subrange(d.exp_start, d.exp_end));
    if !d.has_exp {
        0
    } else if d.exp_negative {
        -v
    } else {
        v
    }
}

pub open spec fn decimal_position(t: Seq<char>) -> int {
    let d = decimal_shape(t);
    let all = t.subrange(sign_len(t), d.int_end) + t.subrange(d.frac_start, d.frac_end);
    (d.int_end - sign_len(t)) - run_len(all, 0, '0') + exponent_value(t)
}

/// The first `n` characters of `s`, padded with `0`s to length `n`.
pub open spec fn pad_digits(s: Seq<char>, n: nat) -> Seq<char> {
    Seq::new(n, |i: int| if i < s.len() { s[i] } else { '0' })
}

/// A decimal literal whose magnitude reaches 2^1024 - 2^970 rounds to
/// infinity.
pub open spec fn overflows(t: Seq<char>) -> bool {
    let s = significand(t);
    let k = decimal_position(t);
    s.len() > 0 && (k > 309 || (k == 309 && !seq_lt(pad_digits(s, 309), OVERFLOW_THRESHOLD@)))
}

/// A literal the floating-point parser maps to a finite number.
pub open spec fn finite_float_literal(t: Seq<char>) -> bool {
    is_decimal(t) && !overflows(t)
}

fn sign_len_exec(t: &[char]) -> (r: usize)
    ensures
        r == sign_len(t@),
{
    if t.len() > 0 && (t[0] == '+' || t[0] == '-') {
        1
    } else {
        0
    }
}

struct Shape {
    int_end: usize,
    frac_start: usize,
    frac_end: usize,
    has_exp: bool,
    exp_negative: bool,
    exp_start: usize,
    exp_end: usize,
}

fn decimal_shape_exec(t: &[char]) -> (r: Shape)
    ensures
        ({
            let d = decimal_shape(t@);
            &&& r.int_end == d.int_end
            &&& r.frac_start == d.frac_start
            &&& r.frac_end == d.frac_end
            &&& r.has_exp == d.has_exp
            &&& r.exp_negative == d.exp_negative
            &&& (r.has_exp ==> r.exp_start == d.exp_start && r.exp_end == d.exp_end)
        }),
        sign_len(t@) <= r.int_end <= r.frac_start <= r.frac_end <= t@.len(),
        r.has_exp ==> r.frac_end < r.exp_start <= r.exp_end <= t@.len(),
{
    let n = t.len();
    let s = sign_len_exec(t);
    let r1 = digit_run_exec(t, s);
    assert(s + r1 <= n);
    let i1 = s + r1;
    let has_dot = i1 < t.len() && t[i1] == '.';
    let fs = if has_dot {
        i1 + 1
    } else {
        i1
    };
    let fe = if has_dot {
        fs + digit_run_exec(t, i1 + 1)
    } else {
        fs
    };
    let has_exp = fe < t.len() && (t[fe] == 'e' || t[fe] == 'E');
    if has_exp {
        let es_len: usize = if fe + 1 < t.len() && (t[fe + 1] == '+' || t[fe + 1] == '-') {
            1
        } else {
            0
        };
        let exp_negative = es_len == 1 && t[fe + 1] == '-';
        let es = fe + 1 + es_len;
        let ee = es + digit_run_exec(t, es);
        Shape {
            int_end: i1,
            frac_start: fs,
            frac_end: fe,
            has_exp,
            exp_negative,
            exp_start: es,
            exp_end: ee,
        }
    } else {
        Shape {
            int_end: i1,
            frac_start: fs,
            frac_end: fe,
            has_exp,
            exp_negative: false,
            exp_start: 0,
            exp_end: 0,
        }
    }
}

fn is_decimal_exec(t: &[char]) -> (r: bool)
    ensures
        r == is_decimal(t@),
{
    let d = decimal_shape_exec(t);
    let s = sign_len_exec(t);
    let digits = (d.int_end - s) + (d.frac_end - d.frac_start);
    digits > 0 && if d.has_exp {
        d.exp_end > d.exp_start && d.exp_end == t.len()
    } else {
        d.frac_end == t.len()
    }
}

fn is_special_exec(t: &[char]) -> (r: bool)
    ensures
        r == is_special(t@),
{
    let s = sign_len_exec(t);
    let rest = slice_of(t, s, t.len());
    assert(['i', 'n', 'f']@ =~= word_inf());
    assert(['i', 'n', 'f', 'i', 'n', 'i', 't', 'y']@ =~= word_infinity());
    assert(['n', 'a', 'n']@ =~= word_nan());
    eq_ignore_case_exec(rest.as_slice(), &['i', 'n', 'f']) || eq_ignore_case_exec(
        rest.as_slice(),
        &['i', 'n', 'f', 'i', 'n', 'i', 't', 'y'],
    ) || eq_ignore_case_exec(rest.as_slice(), &['n', 'a', 'n'])
}

/// Whether the floating-point `str::parse` accepts the text.
pub fn float_literal_exec(t: &[char]) -> (r: bool)
    ensures
        r == float_literal(t@),
{
    is_special_exec(t) || is_decimal_exec(t)
}

/// Saturation point for exponents: far beyond any position that matters.
pub open spec fn exp_cap() -> int {
    0x10000000000000000000000000
}

/// The exponent's value, exact up to `exp_cap()` in magnitude and clamped
/// there.
fn exponent_exec(t: &[char], d: &Shape) -> (r: i128)
    requires
        d.has_exp ==> d.exp_start <= d.exp_end <= t@.len(),
        d.has_exp == decimal_shape(t@).has_exp,
        d.has_exp ==> d.exp_start == decimal_shape(t@).exp_start && d.exp_end == decimal_shape(
            t@,
        ).exp_end,
        d.exp_negative == decimal_shape(t@).exp_negative,
        d.has_exp ==> forall|k: int| d.exp_start <= k < d.exp_end ==> is_ascii_digit(#[trigger] t@[k]),
    ensures
        -exp_cap() <= r <= exp_cap(),
        (-exp_cap() < exponent_value(t@) < exp_cap()) ==> r == exponent_value(t@),
        exponent_value(t@) >= exp_cap() ==> r == exp_cap(),
        exponent_value(t@) <= -exp_cap() ==> r == -exp_cap(),
{
    if !d.has_exp {
        return 0;
    }
    let ghost ed = t@.subrange(d.exp_start as int, d.exp_end as int);
    let mut acc: i128 = 0;
    let mut j = d.exp_start;
    let mut saturated = false;
    while j < d.exp_end
        invariant
            d.exp_start <= j <= d.exp_end <= t@.len(),
            ed == t@.subrange(d.exp_start as int, d.exp_end as int),
            forall|k: int| 0 <= k < ed.len() ==> is_ascii_digit(#[trigger] ed[k]),
            0 <= acc <= exp_cap(),
            !saturated ==> acc == digits_value(ed.subrange(0, j - d.exp_start)),
            saturated ==> acc == exp_cap() && digits_value(ed) >= exp_cap(),
        decreases d.exp_end - j,
    {
        if !saturated {
            assert(ed.subrange(0, j + 1 - d.exp_start).drop_last() =~= ed.subrange(
                0,
                j - d.exp_start,
            ));
            assert(ed[j - d.exp_start] == t@[j as int]);
            let digit = (t[j] as u32 - '0' as u32) as i128;
            let next = acc * 10 + digit;
            if next >= 0x10000000000000000000000000 {
                proof {
                    crate::yaml::lemma_digits_grow(ed, j + 1 - d.exp_start);
                }
                acc = 0x10000000000000000000000000;
                saturated = true;
            } else {
                acc = next;
            }
        }
        j += 1;
    }
    proof {
        assert(ed.subrange(0, ed.len() as int) =~= ed);
        crate::yaml::lemma_digits_grow(ed, 0);
    }
    if d.exp_negative {
        -acc
    } else {
        acc
    }
}

/// Whether the floating-point `str::parse` maps the text to a finite
/// number.
pub fn finite_float_literal_exec(t: &[char]) -> (r: bool)
    ensures
        r == finite_float_literal(t@),
{
    if !is_decimal_exec(t) {
        return false;
    }
    let d = decimal_shape_exec(t);
    let s = sign_len_exec(t);
    proof {
        lemma_digit_run(t@, s as int);
        if decimal_shape(t@).frac_end > decimal_shape(t@).frac_start {
            lemma_digit_run(t@, d.frac_start as int);
        }
        if d.has_exp {
            lemma_digit_run(t@, d.exp_start as int);
        }
    }
    let a = slice_of(t, s, d.int_end);
    let b = slice_of(t, d.frac_start, d.frac_end);
    let mut all = a.clone();
    let mut bb = b.clone();
    all.append(&mut bb);
    assert(all@ =~= t@.subrange(sign_len(t@), decimal_shape(t@).int_end) + t@.subrange(
        decimal_shape(t@).frac_start,
        decimal_shape(t@).frac_end,
    ));
    let z = run_length(all.as_slice(), 0, '0');
    let sig = slice_of(all.as_slice(), z, all.len());
    if sig.len() == 0 {
        return true;
    }
    let e = exponent_exec(t, &d);
    let k: i128 = (d.int_end - s) as i128 - z as i128 + e;
    if k > 309 {
        return false;
    }
    if k < 309 {
        return true;
    }
    let mut pad: Vec<char> = Vec::new();
    let mut i: usize = 0;
    while i < 309
        invariant
            i <= 309,
            pad@.len() == i,
            forall|m: int| 0 <= m < i ==> pad@[m] == if m < sig@.len() { sig@[m] } else { '0' },
        decreases 309 - i,
    {
        if i < sig.len() {
            pad.push(sig[i]);
        } else {
            pad.push('0');
        }
        i += 1;
    }
    assert(pad@ =~= pad_digits(sig@, 309));
    let th = chars_of(OVERFLOW_THRESHOLD);
    lt(pad.as_slice(), th.as_slice())
}

} // verus!
