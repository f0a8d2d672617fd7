//! Why a composed note splits back apart: the frontmatter writer never
//! emits a line that reads as a `---` fence, so the fence it closes the
//! block with is the one splitting finds.

use vstd::prelude::*;
use crate::frontmatter::{
    closing_fence, compose_spec, deeper, digit_char, entries_text, entry_text, escaped, fence,
    int_text, item_text, items_text, key_needs_quotes, nat_text, needs_quotes, piece_end, quote_key,
    quote_scalar, scalar_text, split_spec, strip_bom, yaml_text,
};
use crate::note::after_last;
use crate::text::{back_ws, contains_seq, find_from, is_ws, lemma_back_ws_bounds, lemma_find_from, occurs_at, trim_end};
use crate::yaml::{replace_from, Yaml};

verus! {

/// No line break in `s`.
pub open spec fn no_nl(s: Seq<char>) -> bool {
    forall|k: int| 0 <= k < s.len() ==> #[trigger] s[k] != '\n'
}

/// Only spaces.
pub open spec fn spaces(s: Seq<char>) -> bool {
    forall|k: int| 0 <= k < s.len() ==> #[trigger] s[k] == ' '
}

/// Whole lines, none of which reads as a fence.
pub open spec fn fence_free(t: Seq<char>) -> bool {
    closing_fence(t, 0) is None && (t.len() == 0 || t.last() == '\n')
}

/// The lines of `t` after its first line break, the last one ended by a
/// break, none of which reads as a fence; so it is of any `t` without a break.
/// What follows `key: ` or `- ` on its line can add no fence but by these.
pub open spec fn tail_fence_free(t: Seq<char>) -> bool {
    let f = find_from(t, '\n', 0);
    f >= t.len() || fence_free(t.subrange(f + 1, t.len() as int) + seq!['\n'])
}

/// The complete lines of a key, those before its last line break, none of
/// which reads as a fence.
pub open spec fn key_lines_free(k: Seq<char>) -> bool {
    fence_free(k.subrange(0, after_last(k, '\n', k.len() as int)))
}

/// A value none of whose keys, at any depth, holds a line reading as a fence
/// before its last line break, and none of whose floats' text holds one
/// after its first: the values whose text the writer can write without a
/// line that reads as a fence.
pub open spec fn plain(v: Yaml) -> bool
    decreases v, 1nat, 0int,
{
    match v {
        Yaml::Float(t) => tail_fence_free(t),
        Yaml::Array(items) => plain_items(items, 0),
        Yaml::Object(m) => plain_entries(m, 0),
        _ => true,
    }
}

pub open spec fn plain_items(s: Seq<Yaml>, k: int) -> bool
    decreases s, 0nat, s.len() - k,
{
    if 0 <= k < s.len() {
        plain(s[k]) && plain_items(s, k + 1)
    } else {
        true
    }
}

pub open spec fn plain_entries(m: Seq<(Seq<char>, Yaml)>, k: int) -> bool
    decreases m, 0nat, m.len() - k,
{
    if 0 <= k < m.len() {
        key_lines_free(m[k].0) && plain(m[k].1) && plain_entries(m, k + 1)
    } else {
        true
    }
}

/// A text that can open a line the writer writes without making it a fence:
/// only spaces, or with a character other than `-` somewhere before (or at) a
/// non-blank one.
pub open spec fn safe_prefix(p: Seq<char>) -> bool {
    no_nl(p) && (spaces(p) || exists|a: int, b: int|
        0 <= a <= b < p.len() && #[trigger] p[a] != '-' && !is_ws(#[trigger] p[b]))
}

// ---------------------------------------------------------------------------
// line breaks
// ---------------------------------------------------------------------------

proof fn lemma_replace_keeps_no_nl(s: Seq<char>, pat: Seq<char>, rep: Seq<char>, i: int)
    requires
        no_nl(s),
        no_nl(rep),
    ensures
        no_nl(replace_from(s, pat, rep, i)),
    decreases s.len() - i,
{
    if 0 <= i < s.len() && pat.len() > 0 {
        if occurs_at(s, pat, i) {
            lemma_replace_keeps_no_nl(s, pat, rep, i + pat.len());
        } else {
            lemma_replace_keeps_no_nl(s, pat, rep, i + 1);
        }
    }
}

proof fn lemma_replace_drops_nl(s: Seq<char>, i: int)
    ensures
        no_nl(replace_from(s, seq!['\n'], seq!['\\', 'n'], i)),
    decreases s.len() - i,
{
    if 0 <= i < s.len() {
        if occurs_at(s, seq!['\n'], i) {
            lemma_replace_drops_nl(s, i + 1);
        } else {
            assert(s.subrange(i, i + 1) =~= seq![s[i]]);
            lemma_replace_drops_nl(s, i + 1);
        }
    }
}

proof fn lemma_nat_text_no_nl(n: nat)
    ensures
        no_nl(nat_text(n)),
    decreases n,
{
    if n >= 10 {
        lemma_nat_text_no_nl(n / 10);
    }
}

proof fn lemma_tail_of_no_nl(t: Seq<char>)
    requires
        no_nl(t),
    ensures
        tail_fence_free(t),
{
    lemma_find_from(t, '\n', 0);
    if find_from(t, '\n', 0) < t.len() {
        assert(t[find_from(t, '\n', 0)] == '\n');
    }
}

proof fn lemma_scalar_tail(v: Yaml)
    requires
        plain(v),
    ensures
        tail_fence_free(scalar_text(v)),
{
    match v {
        Yaml::Int(i) => {
            if i < 0 {
                lemma_nat_text_no_nl((-i) as nat);
                lemma_no_nl_join(seq!['-'], nat_text((-i) as nat));
            } else {
                lemma_nat_text_no_nl(i as nat);
            }
            lemma_tail_of_no_nl(scalar_text(v));
        },
        Yaml::Str(t) => {
            if needs_quotes(t) {
                lemma_replace_drops_nl(
                    crate::yaml::replace(crate::yaml::replace(t, seq!['\\'], seq!['\\', '\\']), seq!['"'], seq!['\\', '"']),
                    0,
                );
                lemma_no_nl_join(seq!['"'], escaped(t));
                lemma_no_nl_join(seq!['"'] + escaped(t), seq!['"']);
            } else {
                assert forall|k: int| 0 <= k < t.len() implies #[trigger] t[k] != '\n' by {
                    if t[k] == '\n' {
                        assert(t.subrange(k, k + 1) =~= seq!['\n']);
                        assert(occurs_at(t, seq!['\n'], k));
                    }
                }
            }
            lemma_tail_of_no_nl(scalar_text(v));
        },
        Yaml::Float(t) => {},
        _ => {
            lemma_tail_of_no_nl(scalar_text(v));
        },
    }
}

/// A space before a text adds no line.
proof fn lemma_tail_space(t: Seq<char>)
    requires
        tail_fence_free(t),
    ensures
        tail_fence_free(seq![' '] + t),
{
    let s = seq![' '] + t;
    lemma_find_shift(seq![' '], t, 0);
    assert(find_from(s, '\n', 0) == find_from(s, '\n', 1)) by {
        assert(s[0] == ' ');
    }
    lemma_find_from(t, '\n', 0);
    let f = find_from(t, '\n', 0);
    if f < t.len() {
        assert(s.subrange(f + 2, s.len() as int) =~= t.subrange(f + 1, t.len() as int));
    }
}

// ---------------------------------------------------------------------------
// one line
// ---------------------------------------------------------------------------

proof fn lemma_back_ws_past(s: Seq<char>, j: int, q: int)
    requires
        0 <= q < j <= s.len(),
        !is_ws(s[q]),
    ensures
        q < back_ws(s, j) <= j,
    decreases j,
{
    if is_ws(s[j - 1]) {
        lemma_back_ws_past(s, j - 1, q);
    }
}

/// A line with a non-blank character at `q` and something other than `-`
/// at `p <= q` does not read as a fence.
proof fn lemma_not_fence(l: Seq<char>, p: int, q: int)
    requires
        0 <= p <= q < l.len(),
        !is_ws(l[q]),
        l[p] != '-',
    ensures
        trim_end(l) != fence(),
{
    lemma_back_ws_past(l, l.len() as int, q);
    let t = trim_end(l);
    assert(t[p] == l[p]);
    assert(t.len() == back_ws(l, l.len() as int));
    assert(fence().len() == 3);
    if t == fence() {
        assert(p < 3);
        assert(fence()[0] == '-' && fence()[1] == '-' && fence()[2] == '-');
        assert(t[p] == '-');
    }
}

/// A single line ending in a break, that does not read as a fence.
proof fn lemma_line(l: Seq<char>)
    requires
        l.len() >= 1,
        l.last() == '\n',
        no_nl(l.drop_last()),
        trim_end(l) != fence(),
    ensures
        fence_free(l),
{
    lemma_find_from(l, '\n', 0);
    assert(l[l.len() - 1] == '\n');
    if find_from(l, '\n', 0) < l.len() - 1 {
        let f = find_from(l, '\n', 0);
        assert(l.drop_last()[f] == '\n');
    }
    assert(find_from(l, '\n', 0) == l.len() - 1);
    assert(piece_end(l, 0) == l.len());
    assert(l.subrange(0, l.len() as int) =~= l);
    assert(closing_fence(l, l.len() as int) is None);
    assert(closing_fence(l, 0) == closing_fence(l, l.len() as int));
}

// ---------------------------------------------------------------------------
// joining lines
// ---------------------------------------------------------------------------

proof fn lemma_find_shift(a: Seq<char>, b: Seq<char>, j: int)
    requires
        0 <= j <= b.len(),
    ensures
        find_from(a + b, '\n', a.len() + j) == a.len() + find_from(b, '\n', j),
    decreases b.len() - j,
{
    if j < b.len() {
        assert((a + b)[a.len() + j] == b[j]);
        if b[j] != '\n' {
            lemma_find_shift(a, b, j + 1);
        }
    }
}

proof fn lemma_closing_shift(a: Seq<char>, b: Seq<char>, j: int)
    requires
        0 <= j <= b.len(),
    ensures
        closing_fence(a + b, a.len() + j) == match closing_fence(b, j) {
            Some(x) => Some(a.len() + x),
            None => None,
        },
    decreases b.len() - j,
{
    if j < b.len() {
        lemma_find_shift(a, b, j);
        lemma_find_from(b, '\n', j);
        let e = piece_end(b, j);
        assert(piece_end(a + b, a.len() + j) == a.len() + e);
        assert((a + b).subrange(a.len() + j, a.len() + e) =~= b.subrange(j, e));
        if trim_end(b.subrange(j, e)) != fence() {
            lemma_closing_shift(a, b, e);
        }
    }
}

proof fn lemma_find_within(a: Seq<char>, b: Seq<char>, i: int)
    requires
        0 <= i < a.len(),
        a.last() == '\n',
    ensures
        find_from(a + b, '\n', i) == find_from(a, '\n', i),
        find_from(a, '\n', i) < a.len(),
    decreases a.len() - i,
{
    assert((a + b)[i] == a[i]);
    if a[i] != '\n' {
        assert(i + 1 < a.len());
        lemma_find_within(a, b, i + 1);
    }
}

proof fn lemma_closing_prefix(a: Seq<char>, b: Seq<char>, i: int)
    requires
        0 <= i <= a.len(),
        closing_fence(a, i) is None,
        a.len() == 0 || a.last() == '\n',
    ensures
        closing_fence(a + b, i) == match closing_fence(b, 0) {
            Some(x) => Some(a.len() + x),
            None => None,
        },
    decreases a.len() - i,
{
    if i == a.len() {
        lemma_closing_shift(a, b, 0);
    } else {
        lemma_find_within(a, b, i);
        lemma_find_from(a, '\n', i);
        let e = piece_end(a, i);
        assert(piece_end(a + b, i) == e);
        assert((a + b).subrange(i, e) =~= a.subrange(i, e));
        lemma_closing_prefix(a, b, e);
    }
}

proof fn lemma_join(a: Seq<char>, b: Seq<char>)
    requires
        fence_free(a),
        fence_free(b),
    ensures
        fence_free(a + b),
{
    lemma_closing_prefix(a, b, 0);
    if b.len() > 0 {
        assert((a + b).last() == b.last());
    } else {
        assert(a + b =~= a);
    }
}

// ---------------------------------------------------------------------------
// what the writer emits
// ---------------------------------------------------------------------------

proof fn lemma_no_nl_join(a: Seq<char>, b: Seq<char>)
    requires
        no_nl(a),
        no_nl(b),
    ensures
        no_nl(a + b),
{
    assert forall|k: int| 0 <= k < (a + b).len() implies #[trigger] (a + b)[k] != '\n' by {
        if k >= a.len() {
            assert((a + b)[k] == b[k - a.len()]);
        } else {
            assert((a + b)[k] == a[k]);
        }
    }
}

/// A line that is no fence, then lines that are none.
proof fn lemma_first_line_join(l: Seq<char>, u: Seq<char>)
    requires
        no_nl(l),
        trim_end(l + seq!['\n']) != fence(),
        fence_free(u),
    ensures
        fence_free(l + seq!['\n'] + u),
{
    let line = l + seq!['\n'];
    assert(line.drop_last() =~= l);
    lemma_line(line);
    lemma_join(line, u);
}

/// The first line of fence-free text is no fence, and neither is any after.
proof fn lemma_first_line_split(h: Seq<char>)
    requires
        fence_free(h),
        h.len() > 0,
    ensures
        0 <= find_from(h, '\n', 0) < h.len(),
        no_nl(h.subrange(0, find_from(h, '\n', 0))),
        trim_end(h.subrange(0, find_from(h, '\n', 0)) + seq!['\n']) != fence(),
        fence_free(h.subrange(find_from(h, '\n', 0) + 1, h.len() as int)),
        h == h.subrange(0, find_from(h, '\n', 0)) + seq!['\n'] + h.subrange(find_from(h, '\n', 0) + 1, h.len() as int),
{
    lemma_find_from(h, '\n', 0);
    let f = find_from(h, '\n', 0);
    if f >= h.len() {
        assert(h[h.len() - 1] == '\n');
    }
    assert(f < h.len());
    let l = h.subrange(0, f);
    let a = h.subrange(0, f + 1);
    let b = h.subrange(f + 1, h.len() as int);
    assert(a =~= l + seq!['\n']);
    assert(h =~= a + b);
    assert(piece_end(h, 0) == f + 1);
    assert(h.subrange(0, piece_end(h, 0)) == a);
    lemma_closing_shift(a, b, 0);
    assert(closing_fence(h, 0) == closing_fence(h, f + 1));
    if b.len() > 0 {
        assert(b.last() == h.last());
    }
}

/// `a` then `rest` then a line break, where `a` holds something other than
/// `-` before a non-blank character: its first line is no fence.
proof fn lemma_marked_line(a: Seq<char>, p: int, q: int, rest: Seq<char>)
    requires
        no_nl(a),
        0 <= p <= q < a.len(),
        a[p] != '-',
        !is_ws(a[q]),
        tail_fence_free(rest),
    ensures
        fence_free(a + rest + seq!['\n']),
{
    lemma_find_from(rest, '\n', 0);
    let f = find_from(rest, '\n', 0);
    if f >= rest.len() {
        let l = a + rest;
        lemma_no_nl_join(a, rest);
        assert(l[p] == a[p] && l[q] == a[q]);
        lemma_not_fence(l + seq!['\n'], p, q);
        lemma_first_line_join(l, seq![]);
        assert(l + seq!['\n'] + Seq::<char>::empty() =~= a + rest + seq!['\n']);
    } else {
        let r0 = rest.subrange(0, f);
        let u = rest.subrange(f + 1, rest.len() as int) + seq!['\n'];
        let l = a + r0;
        assert(no_nl(r0));
        lemma_no_nl_join(a, r0);
        assert(l[p] == a[p] && l[q] == a[q]);
        lemma_not_fence(l + seq!['\n'], p, q);
        lemma_first_line_join(l, u);
        assert(l + seq!['\n'] + u =~= a + rest + seq!['\n']);
    }
}

/// A safe prefix before fence-free text keeps it fence-free.
proof fn lemma_prefix_lines(pre: Seq<char>, h: Seq<char>)
    requires
        safe_prefix(pre),
        fence_free(h),
        h.len() > 0,
    ensures
        fence_free(pre + h),
{
    lemma_first_line_split(h);
    let f = find_from(h, '\n', 0);
    let l1 = h.subrange(0, f);
    let b = h.subrange(f + 1, h.len() as int);
    let l = pre + l1;
    lemma_no_nl_join(pre, l1);
    let line = l + seq!['\n'];
    if spaces(pre) {
        if pre.len() == 0 {
            assert(l =~= l1);
        } else {
            let t = trim_end(line);
            lemma_back_ws_bounds(line, line.len() as int);
            if t == fence() {
                assert(t.len() == 3);
                assert(t[0] == line[0]);
                assert(line[0] == pre[0]);
                assert(pre[0] == ' ');
            }
        }
    } else {
        let (x, y) = choose|x: int, y: int|
            0 <= x <= y < pre.len() && #[trigger] pre[x] != '-' && !is_ws(#[trigger] pre[y]);
        assert(line[x] == pre[x] && line[y] == pre[y]);
        lemma_not_fence(line, x, y);
    }
    lemma_first_line_join(l, b);
    assert(l + seq!['\n'] + b =~= pre + h);
}

// ---------------------------------------------------------------------------
// quoting a key
// ---------------------------------------------------------------------------

pub open spec fn quote_pat() -> Seq<char> {
    seq!['"']
}

pub open spec fn quote_esc() -> Seq<char> {
    seq!['\\', '"']
}

proof fn lemma_rq_shift(a: Seq<char>, b: Seq<char>, j: int)
    requires
        0 <= j <= b.len(),
    ensures
        replace_from(a + b, quote_pat(), quote_esc(), a.len() + j) == replace_from(b, quote_pat(), quote_esc(), j),
    decreases b.len() - j,
{
    let s = a + b;
    if j < b.len() {
        lemma_rq_shift(a, b, j + 1);
        assert(s[a.len() + j] == b[j]);
        assert(s.subrange(a.len() + j, a.len() + j + 1) =~= b.subrange(j, j + 1));
        assert(occurs_at(s, quote_pat(), a.len() + j) == occurs_at(b, quote_pat(), j));
    } else {
        assert(s.subrange(s.len() as int, s.len() as int) =~= b.subrange(b.len() as int, b.len() as int));
    }
}

proof fn lemma_rq_concat(a: Seq<char>, b: Seq<char>, i: int)
    requires
        0 <= i <= a.len(),
    ensures
        replace_from(a + b, quote_pat(), quote_esc(), i) == replace_from(a, quote_pat(), quote_esc(), i)
            + replace_from(b, quote_pat(), quote_esc(), 0),
    decreases a.len() - i,
{
    let s = a + b;
    if i < a.len() {
        lemma_rq_concat(a, b, i + 1);
        assert(s[i] == a[i]);
        if i + 1 <= a.len() {
            assert(s.subrange(i, i + 1) =~= a.subrange(i, i + 1));
        }
        assert(occurs_at(s, quote_pat(), i) == occurs_at(a, quote_pat(), i));
        let ra = replace_from(a, quote_pat(), quote_esc(), i + 1);
        let rb = replace_from(b, quote_pat(), quote_esc(), 0);
        if occurs_at(a, quote_pat(), i) {
            assert(quote_esc() + (ra + rb) =~= (quote_esc() + ra) + rb);
        } else {
            assert(seq![a[i]] + (ra + rb) =~= (seq![a[i]] + ra) + rb);
        }
    } else {
        lemma_rq_shift(a, b, 0);
        assert(replace_from(a, quote_pat(), quote_esc(), i) =~= Seq::<char>::empty());
        assert(Seq::<char>::empty() + replace_from(b, quote_pat(), quote_esc(), 0) =~= replace_from(
            b,
            quote_pat(),
            quote_esc(),
            0,
        ));
    }
}

proof fn lemma_rq_id(s: Seq<char>, i: int)
    requires
        0 <= i <= s.len(),
        forall|k: int| i <= k < s.len() ==> #[trigger] s[k] != '"',
    ensures
        replace_from(s, quote_pat(), quote_esc(), i) == s.subrange(i, s.len() as int),
    decreases s.len() - i,
{
    if i < s.len() {
        lemma_rq_id(s, i + 1);
        if occurs_at(s, quote_pat(), i) {
            assert(s.subrange(i, i + 1)[0] == s[i]);
        }
        assert(seq![s[i]] + s.subrange(i + 1, s.len() as int) =~= s.subrange(i, s.len() as int));
    }
}

/// A quote somewhere in `s` leaves a quote in its escaped form.
proof fn lemma_rq_keeps_quote(s: Seq<char>, x: int)
    requires
        0 <= x < s.len(),
        s[x] == '"',
    ensures
        exists|y: int|
            0 <= y < replace_from(s, quote_pat(), quote_esc(), 0).len() && #[trigger] replace_from(
                s,
                quote_pat(),
                quote_esc(),
                0,
            )[y] == '"',
{
    let pre = s.subrange(0, x);
    let suf = s.subrange(x, s.len() as int);
    assert(s =~= pre + suf);
    lemma_rq_concat(pre, suf, 0);
    assert(suf.subrange(0, 1) =~= quote_pat());
    assert(occurs_at(suf, quote_pat(), 0));
    let rp = replace_from(pre, quote_pat(), quote_esc(), 0);
    let r = replace_from(s, quote_pat(), quote_esc(), 0);
    assert(r[rp.len() + 1int] == '"');
}

/// Escaping quotes turns no line into a fence.
proof fn lemma_rq_line(l: Seq<char>)
    requires
        no_nl(l),
        trim_end(l + seq!['\n']) != fence(),
    ensures
        no_nl(replace_from(l, quote_pat(), quote_esc(), 0)),
        trim_end(replace_from(l, quote_pat(), quote_esc(), 0) + seq!['\n']) != fence(),
{
    let r = replace_from(l, quote_pat(), quote_esc(), 0);
    assert(no_nl(quote_esc()));
    lemma_replace_keeps_no_nl(l, quote_pat(), quote_esc(), 0);
    if exists|x: int| 0 <= x < l.len() && l[x] == '"' {
        let x = choose|x: int| 0 <= x < l.len() && l[x] == '"';
        lemma_rq_keeps_quote(l, x);
        let y = choose|y: int| 0 <= y < r.len() && #[trigger] r[y] == '"';
        assert((r + seq!['\n'])[y] == '"');
        lemma_not_fence(r + seq!['\n'], y, y);
    } else {
        lemma_rq_id(l, 0);
        assert(l.subrange(0, l.len() as int) =~= l);
    }
}

/// Escaping quotes keeps fence-free text fence-free.
proof fn lemma_rq_fence_free(h: Seq<char>)
    requires
        fence_free(h),
    ensures
        fence_free(replace_from(h, quote_pat(), quote_esc(), 0)),
        h.len() > 0 ==> replace_from(h, quote_pat(), quote_esc(), 0).len() > 0,
    decreases h.len(),
{
    if h.len() == 0 {
        assert(replace_from(h, quote_pat(), quote_esc(), 0) =~= Seq::<char>::empty());
    } else {
        lemma_first_line_split(h);
        let f = find_from(h, '\n', 0);
        let l = h.subrange(0, f);
        let b = h.subrange(f + 1, h.len() as int);
        lemma_rq_fence_free(b);
        lemma_rq_line(l);
        let nl = seq!['\n'];
        lemma_rq_concat(l + nl, b, 0);
        lemma_rq_concat(l, nl, 0);
        assert(replace_from(nl, quote_pat(), quote_esc(), 0) =~= nl) by {
            lemma_rq_id(nl, 0);
            assert(nl.subrange(0, 1) =~= nl);
        }
        let rl = replace_from(l, quote_pat(), quote_esc(), 0);
        let rb = replace_from(b, quote_pat(), quote_esc(), 0);
        assert(replace_from(h, quote_pat(), quote_esc(), 0) == rl + nl + rb);
        lemma_first_line_join(rl, rb);
    }
}

proof fn lemma_key_split(key: Seq<char>)
    ensures
        ({
            let a = after_last(key, '\n', key.len() as int);
            &&& 0 <= a <= key.len()
            &&& key == key.subrange(0, a) + key.subrange(a, key.len() as int)
            &&& no_nl(key.subrange(a, key.len() as int))
            &&& a > 0 ==> key.subrange(0, a).len() > 0
        }),
{
    let a = after_last(key, '\n', key.len() as int);
    crate::paths::lemma_after_last(key, '\n', key.len() as int);
    assert(key =~= key.subrange(0, a) + key.subrange(a, key.len() as int));
    let l = key.subrange(a, key.len() as int);
    assert forall|k: int| 0 <= k < l.len() implies #[trigger] l[k] != '\n' by {
        assert(l[k] == key[a + k]);
    }
}

/// The quoted form of a key: its lines escaped, between quotes.
#[verifier::rlimit(30)]
proof fn lemma_quoted_entry_line(pre: Seq<char>, h: Seq<char>, l: Seq<char>, rest: Seq<char>)
    requires
        safe_prefix(pre),
        fence_free(h),
        no_nl(l),
        tail_fence_free(rest),
    ensures
        fence_free(pre + (seq!['"'] + replace_from(h + l, quote_pat(), quote_esc(), 0) + seq!['"']) + seq![':'] + rest + seq!['\n']),
{
    lemma_rq_concat(h, l, 0);
    let rh = replace_from(h, quote_pat(), quote_esc(), 0);
    let rl = replace_from(l, quote_pat(), quote_esc(), 0);
    assert(no_nl(quote_esc()));
    lemma_replace_keeps_no_nl(l, quote_pat(), quote_esc(), 0);
    let target = pre + (seq!['"'] + (rh + rl) + seq!['"']) + seq![':'] + rest + seq!['\n'];
    let tail_a = rl + seq!['"', ':'];
    lemma_no_nl_join(rl, seq!['"', ':']);
    assert(tail_a[tail_a.len() - 1] == ':');
    if h.len() == 0 {
        assert(rh =~= Seq::<char>::empty());
        let head = pre + seq!['"'] + tail_a;
        lemma_no_nl_join(pre, seq!['"']);
        lemma_no_nl_join(pre + seq!['"'], tail_a);
        assert(head[head.len() - 1] == ':');
        lemma_marked_line(head, head.len() - 1, head.len() - 1, rest);
        assert(head + rest + seq!['\n'] =~= target);
    } else {
        lemma_rq_fence_free(h);
        let p2 = pre + seq!['"'];
        lemma_no_nl_join(pre, seq!['"']);
        assert(p2[pre.len() as int] == '"');
        assert(safe_prefix(p2));
        lemma_prefix_lines(p2, rh);
        lemma_marked_line(tail_a, tail_a.len() - 1, tail_a.len() - 1, rest);
        lemma_join(p2 + rh, tail_a + rest + seq!['\n']);
        assert((p2 + rh) + (tail_a + rest + seq!['\n']) =~= target);
    }
}

/// A bare key's lines.
proof fn lemma_bare_entry_line(pre: Seq<char>, h: Seq<char>, l: Seq<char>, rest: Seq<char>)
    requires
        safe_prefix(pre),
        fence_free(h),
        no_nl(l),
        tail_fence_free(rest),
    ensures
        fence_free(pre + (h + l) + seq![':'] + rest + seq!['\n']),
{
    let target = pre + (h + l) + seq![':'] + rest + seq!['\n'];
    let tail_a = l + seq![':'];
    lemma_no_nl_join(l, seq![':']);
    assert(tail_a[tail_a.len() - 1] == ':');
    if h.len() == 0 {
        let head = pre + tail_a;
        lemma_no_nl_join(pre, tail_a);
        assert(head[head.len() - 1] == ':');
        lemma_marked_line(head, head.len() - 1, head.len() - 1, rest);
        assert(head + rest + seq!['\n'] =~= target);
    } else {
        lemma_prefix_lines(pre, h);
        lemma_marked_line(tail_a, tail_a.len() - 1, tail_a.len() - 1, rest);
        lemma_join(pre + h, tail_a + rest + seq!['\n']);
        assert((pre + h) + (tail_a + rest + seq!['\n']) =~= target);
    }
}

/// `pre key: rest` lines (the key's own lines included), under a safe
/// prefix.
proof fn lemma_entry_line(pre: Seq<char>, key: Seq<char>, rest: Seq<char>)
    requires
        safe_prefix(pre),
        key_lines_free(key),
        tail_fence_free(rest),
    ensures
        fence_free(pre + quote_key(key) + seq![':'] + rest + seq!['\n']),
{
    lemma_key_split(key);
    let a = after_last(key, '\n', key.len() as int);
    let h = key.subrange(0, a);
    let l = key.subrange(a, key.len() as int);
    if key_needs_quotes(key) {
        lemma_quoted_entry_line(pre, h, l, rest);
    } else {
        lemma_bare_entry_line(pre, h, l, rest);
    }
}

/// `pad- rest` lines, under a non-empty indent.
proof fn lemma_item_line(pad: Seq<char>, rest: Seq<char>)
    requires
        spaces(pad),
        pad.len() > 0,
        tail_fence_free(rest),
    ensures
        fence_free(pad + seq!['-'] + rest + seq!['\n']),
{
    let a = pad + seq!['-'];
    lemma_no_nl_join(pad, seq!['-']);
    assert(a[0] == ' ');
    assert(a[pad.len() as int] == '-');
    lemma_marked_line(a, 0, pad.len() as int, rest);
}

proof fn lemma_deeper(pad: Seq<char>)
    requires
        spaces(pad),
    ensures
        spaces(deeper(pad)),
        deeper(pad).len() > 0,
{
    assert forall|k: int| 0 <= k < deeper(pad).len() implies #[trigger] deeper(pad)[k] == ' ' by {
        if k < pad.len() {
            assert(deeper(pad)[k] == pad[k]);
        }
    }
}

proof fn lemma_entry_text(key: Seq<char>, v: Yaml, pad: Seq<char>)
    requires
        spaces(pad),
        key_lines_free(key),
        plain(v),
    ensures
        fence_free(entry_text(key, v, pad)),
    decreases v, 1nat, 0int,
{
    lemma_scalar_tail(v);
    lemma_deeper(pad);
    let colon_space = seq![' '] + scalar_text(v);
    lemma_tail_space(scalar_text(v));
    lemma_tail_of_no_nl(seq![]);
    assert(safe_prefix(pad));
    let head = pad + quote_key(key) + seq![':'] + seq![] + seq!['\n'];
    match v {
        Yaml::Array(items) => {
            if items.len() > 0 {
                lemma_entry_line(pad, key, seq![]);
                lemma_items_text(items, 0, deeper(pad));
                assert(pad + quote_key(key) + seq![':', '\n'] =~= head);
                lemma_join(head, items_text(items, 0, deeper(pad)));
            } else {
                lemma_entry_line(pad, key, colon_space);
                assert(entry_text(key, v, pad) =~= pad + quote_key(key) + seq![':'] + colon_space + seq!['\n']);
            }
        },
        Yaml::Object(m) => {
            if m.len() > 0 {
                lemma_entry_line(pad, key, seq![]);
                lemma_entries_text(m, 0, deeper(pad));
                assert(pad + quote_key(key) + seq![':', '\n'] =~= head);
                lemma_join(head, entries_text(m, 0, deeper(pad)));
            } else {
                lemma_entry_line(pad, key, colon_space);
                assert(entry_text(key, v, pad) =~= pad + quote_key(key) + seq![':'] + colon_space + seq!['\n']);
            }
        },
        _ => {
            lemma_entry_line(pad, key, colon_space);
            assert(entry_text(key, v, pad) =~= pad + quote_key(key) + seq![':'] + colon_space + seq!['\n']);
        },
    }
}

proof fn lemma_entries_text(m: Seq<(Seq<char>, Yaml)>, k: int, pad: Seq<char>)
    requires
        spaces(pad),
        plain_entries(m, k),
    ensures
        fence_free(entries_text(m, k, pad)),
    decreases m, 0nat, m.len() - k,
{
    if 0 <= k < m.len() {
        lemma_entry_text(m[k].0, m[k].1, pad);
        lemma_entries_text(m, k + 1, pad);
        lemma_join(entry_text(m[k].0, m[k].1, pad), entries_text(m, k + 1, pad));
    }
}

proof fn lemma_plain_entries_first(m: Seq<(Seq<char>, Yaml)>, k: int)
    requires
        plain_entries(m, k),
        0 <= k,
    ensures
        forall|j: int| k <= j < m.len() ==> key_lines_free(#[trigger] m[j].0) && plain(m[j].1) && plain_entries(m, j),
    decreases m.len() - k,
{
    if k < m.len() {
        lemma_plain_entries_first(m, k + 1);
    }
}

proof fn lemma_item_text(v: Yaml, pad: Seq<char>)
    requires
        spaces(pad),
        pad.len() > 0,
        plain(v),
    ensures
        fence_free(item_text(v, pad)),
    decreases v, 1nat, 0int,
{
    lemma_scalar_tail(v);
    lemma_deeper(pad);
    let dash_space = seq![' '] + scalar_text(v);
    lemma_tail_space(scalar_text(v));
    lemma_tail_of_no_nl(seq![]);
    let bare = pad + seq!['-'] + seq![] + seq!['\n'];
    match v {
        Yaml::Object(m) => {
            if m.len() > 0 {
                lemma_plain_entries_first(m, 0);
                let first = if m[0].1 is Array || m[0].1 is Object {
                    pad + seq!['-', '\n'] + entry_text(m[0].0, m[0].1, deeper(pad))
                } else {
                    pad + seq!['-', ' '] + quote_key(m[0].0) + seq![':', ' '] + scalar_text(m[0].1) + seq!['\n']
                };
                if m[0].1 is Array || m[0].1 is Object {
                    lemma_item_line(pad, seq![]);
                    lemma_entry_text(m[0].0, m[0].1, deeper(pad));
                    assert(pad + seq!['-', '\n'] =~= bare);
                    lemma_join(bare, entry_text(m[0].0, m[0].1, deeper(pad)));
                } else {
                    lemma_scalar_tail(m[0].1);
                    lemma_tail_space(scalar_text(m[0].1));
                    let pre = pad + seq!['-', ' '];
                    lemma_no_nl_join(pad, seq!['-', ' ']);
                    assert(pre[0] == ' ' && pre[pad.len() as int] == '-');
                    assert(safe_prefix(pre));
                    lemma_entry_line(pre, m[0].0, seq![' '] + scalar_text(m[0].1));
                    assert(first =~= pre + quote_key(m[0].0) + seq![':'] + (seq![' '] + scalar_text(m[0].1)) + seq!['\n']);
                }
                lemma_entries_text(m, 1, deeper(pad));
                lemma_join(first, entries_text(m, 1, deeper(pad)));
            } else {
                lemma_item_line(pad, dash_space);
                assert(item_text(v, pad) =~= pad + seq!['-'] + dash_space + seq!['\n']);
            }
        },
        Yaml::Array(items) => {
            if items.len() > 0 {
                lemma_item_line(pad, seq![]);
                lemma_items_text(items, 0, deeper(pad));
                assert(pad + seq!['-', '\n'] =~= bare);
                lemma_join(bare, items_text(items, 0, deeper(pad)));
            } else {
                lemma_item_line(pad, dash_space);
                assert(item_text(v, pad) =~= pad + seq!['-'] + dash_space + seq!['\n']);
            }
        },
        _ => {
            lemma_item_line(pad, dash_space);
            assert(item_text(v, pad) =~= pad + seq!['-'] + dash_space + seq!['\n']);
        },
    }
}

proof fn lemma_items_text(s: Seq<Yaml>, k: int, pad: Seq<char>)
    requires
        spaces(pad),
        pad.len() > 0,
        plain_items(s, k),
    ensures
        fence_free(items_text(s, k, pad)),
    decreases s, 0nat, s.len() - k,
{
    if 0 <= k < s.len() {
        lemma_item_text(s[k], pad);
        lemma_items_text(s, k + 1, pad);
        lemma_join(item_text(s[k], pad), items_text(s, k + 1, pad));
    }
}

/// A text that opens with a fence line: where that line ends, and that it
/// reads as a fence.
proof fn lemma_opening(z: Seq<char>)
    ensures
        piece_end(fence() + seq!['\n'] + z, 0) == 4,
        trim_end((fence() + seq!['\n'] + z).subrange(0, 4)) == fence(),
        (fence() + seq!['\n'] + z).subrange(4, (fence() + seq!['\n'] + z).len() as int) == z,
        closing_fence(fence() + seq!['\n'] + z, 0) == Some(0int),
{
    let c = fence() + seq!['\n'] + z;
    let open = fence() + seq!['\n'];
    assert(c[0] == '-' && c[1] == '-' && c[2] == '-' && c[3] == '\n');
    assert(find_from(c, '\n', 3) == 3);
    assert(find_from(c, '\n', 2) == 3);
    assert(find_from(c, '\n', 1) == 3);
    assert(find_from(c, '\n', 0) == 3);
    assert(c.subrange(0, 4) =~= open);
    assert(is_ws('\n'));
    assert(!is_ws('-'));
    assert(back_ws(open, 3) == 3);
    assert(back_ws(open, 4) == 3);
    assert(trim_end(open) =~= fence());
    assert(c.subrange(4, c.len() as int) =~= z);
}

/// A composed note splits back into the frontmatter text written and the
/// body (after the blank line composing puts before a body that does not
/// start with one), provided no key, at any depth, holds a line reading as a
/// `---` fence before its last line break, and no float's text one after its
/// first: only such a line could be taken for the closing fence.
#[verifier::rlimit(80)]
pub proof fn lemma_split_compose(m: Seq<(Seq<char>, Yaml)>, body: Seq<char>)
    requires
        m.len() > 0,
        plain_entries(m, 0),
    ensures
        split_spec(compose_spec(m, body)).0 == Some(yaml_text(m)),
        split_spec(compose_spec(m, body)).1 == (if body.len() > 0 && body[0] != '\n' {
            seq!['\n'] + body
        } else {
            body
        }),
{
    let y = yaml_text(m);
    lemma_entries_text(m, 0, seq![]);
    let sep: Seq<char> = if body.len() > 0 && body[0] != '\n' {
        seq!['\n']
    } else {
        seq![]
    };
    let c = compose_spec(m, body);
    let z = sep + body;
    let tail = fence() + seq!['\n'] + z;
    let rest = y + tail;
    assert(c =~= fence() + seq!['\n'] + rest);
    assert(c[0] == '-');
    assert(strip_bom(c) == c);
    lemma_opening(rest);
    lemma_opening(z);
    lemma_closing_prefix(y, tail, 0);
    assert(closing_fence(rest, 0) == Some(y.len() as int));
    lemma_find_shift(y, tail, 0);
    assert(piece_end(rest, y.len() as int) == y.len() + 4);
    assert(rest.subrange(0, y.len() as int) =~= y);
    assert(rest.subrange(y.len() + 4int, rest.len() as int) =~= z);
}

} // verus!
