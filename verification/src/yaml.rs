//! A deliberately small YAML subset, sized for note frontmatter.
//!
//! Frontmatter in a knowledge vault is overwhelmingly flat scalars, lists and
//! the occasional nested map, so this module parses that subset directly into
//! a JSON-like [`Value`] and writes it back out in the same shape.
//!
//! Supported: block maps, block sequences, inline `[a, b]` and `{a: b}`,
//! quoted and bare scalars, booleans, numbers, null, and `#` comments.
//! Anything it cannot model is preserved verbatim as a string.

use vstd::prelude::*;

use crate::links::strings_view;
use crate::numbers::{finite_float_literal, finite_float_literal_exec};
use crate::text::{
    byte_len, chars_of, indent_bytes, lines, occurs_at, occurs_at_exec, seq_lt, slice_of,
    split_lines, string_of, trim, trim_end, trim_end_vec, trim_vec, lt, lemma_lt_trichotomy,
    lemma_lt_transitive, lemma_lt_asymmetric, lemma_lt_irreflexive,
};

verus! {

/// A frontmatter value, shaped like JSON.
#[derive(Debug, PartialEq)]
pub enum Value {
    Null,
    Bool(bool),
    Int(i64),
    /// A finite floating-point number, held as the literal it was written as.
    Float(String),
    String(String),
    Array(Vec<Value>),
    /// Entries in increasing key order, each key once.
    Object(Vec<(String, Value)>),
}

/// A frontmatter map: entries in increasing key order, each key once.
pub type Entries = Vec<(String, Value)>;

/// The mathematical content of a [`Value`].
pub enum Yaml {
    Null,
    Bool(bool),
    Int(int),
    Float(Seq<char>),
    Str(Seq<char>),
    Array(Seq<Yaml>),
    Object(Seq<(Seq<char>, Yaml)>),
}

pub open spec fn view_of(v: Value) -> Yaml
    decreases v, 0nat,
{
    match v {
        Value::Null => Yaml::Null,
        Value::Bool(b) => Yaml::Bool(b),
        Value::Int(i) => Yaml::Int(i as int),
        Value::Float(s) => Yaml::Float(s@),
        Value::String(s) => Yaml::Str(s@),
        Value::Array(items) => Yaml::Array(views_of(items@, 0)),
        Value::Object(es) => Yaml::Object(entries_view(es@, 0)),
    }
}

pub open spec fn views_of(s: Seq<Value>, k: int) -> Seq<Yaml>
    decreases s, s.len() - k,
{
    if 0 <= k < s.len() {
        seq![view_of(s[k])] + views_of(s, k + 1)
    } else {
        seq![]
    }
}

pub open spec fn entries_view(s: Seq<(String, Value)>, k: int) -> Seq<(Seq<char>, Yaml)>
    decreases s, s.len() - k,
{
    if 0 <= k < s.len() {
        seq![(s[k].0@, view_of(s[k].1))] + entries_view(s, k + 1)
    } else {
        seq![]
    }
}

impl View for Value {
    type V = Yaml;

    open spec fn view(&self) -> Yaml {
        view_of(*self)
    }
}

pub open spec fn map_view(m: Seq<(String, Value)>) -> Seq<(Seq<char>, Yaml)> {
    entries_view(m, 0)
}

pub proof fn lemma_views_of(s: Seq<Value>, k: int)
    requires
        0 <= k <= s.len(),
    ensures
        views_of(s, k).len() == s.len() - k,
        forall|i: int| 0 <= i < s.len() - k ==> #[trigger] views_of(s, k)[i] == view_of(s[k + i]),
    decreases s.len() - k,
{
    if k < s.len() {
        lemma_views_of(s, k + 1);
        assert forall|i: int| 0 <= i < s.len() - k implies #[trigger] views_of(s, k)[i] == view_of(
            s[k + i],
        ) by {
            if i > 0 {
                assert(views_of(s, k)[i] == views_of(s, k + 1)[i - 1]);
            }
        }
    }
}

pub proof fn lemma_entries_view(s: Seq<(String, Value)>, k: int)
    requires
        0 <= k <= s.len(),
    ensures
        entries_view(s, k).len() == s.len() - k,
        forall|i: int|
            0 <= i < s.len() - k ==> #[trigger] entries_view(s, k)[i] == (s[k + i].0@, view_of(
                s[k + i].1,
            )),
    decreases s.len() - k,
{
    if k < s.len() {
        lemma_entries_view(s, k + 1);
        assert forall|i: int| 0 <= i < s.len() - k implies #[trigger] entries_view(s, k)[i] == (
        s[k + i].0@, view_of(s[k + i].1)) by {
            if i > 0 {
                assert(entries_view(s, k)[i] == entries_view(s, k + 1)[i - 1]);
            }
        }
    }
}

pub proof fn lemma_views_push(s: Seq<Value>, x: Value)
    ensures
        views_of(s.push(x), 0) == views_of(s, 0).push(view_of(x)),
{
    lemma_views_of(s.push(x), 0);
    lemma_views_of(s, 0);
    assert(views_of(s.push(x), 0) =~= views_of(s, 0).push(view_of(x)));
}

proof fn lemma_entries_eq(s: Seq<(String, Value)>, t: Seq<(Seq<char>, Yaml)>)
    requires
        s.len() == t.len(),
        forall|i: int| 0 <= i < s.len() ==> #[trigger] t[i] == (s[i].0@, view_of(s[i].1)),
    ensures
        map_view(s) == t,
{
    lemma_entries_view(s, 0);
    assert(map_view(s) =~= t);
}

// ---------------------------------------------------------------------------
// maps
// ---------------------------------------------------------------------------

/// Keys strictly increasing: what a sorted map holds.
pub open spec fn keys_sorted(m: Seq<(Seq<char>, Yaml)>) -> bool {
    forall|i: int, j: int| 0 <= i < j < m.len() ==> seq_lt(#[trigger] m[i].0, #[trigger] m[j].0)
}

/// `m` with `key` bound to `v`: replaced where the key is present, inserted
/// in key order otherwise.
pub open spec fn map_insert(m: Seq<(Seq<char>, Yaml)>, key: Seq<char>, v: Yaml) -> Seq<
    (Seq<char>, Yaml),
>
    decreases m.len(),
{
    if m.len() == 0 {
        seq![(key, v)]
    } else if m[0].0 == key {
        seq![(key, v)] + m.drop_first()
    } else if seq_lt(key, m[0].0) {
        seq![(key, v)] + m
    } else {
        seq![m[0]] + map_insert(m.drop_first(), key, v)
    }
}

/// The value bound to `key`, if any.
pub open spec fn map_get(m: Seq<(Seq<char>, Yaml)>, key: Seq<char>) -> Option<Yaml>
    decreases m.len(),
{
    if m.len() == 0 {
        None
    } else if m[0].0 == key {
        Some(m[0].1)
    } else {
        map_get(m.drop_first(), key)
    }
}

/// Position at which `key` belongs in sorted `m`: the first entry whose key
/// is not smaller.
pub open spec fn insert_pos(m: Seq<(Seq<char>, Yaml)>, key: Seq<char>) -> int
    decreases m.len(),
{
    if m.len() == 0 || !seq_lt(m[0].0, key) {
        0
    } else {
        1 + insert_pos(m.drop_first(), key)
    }
}

proof fn lemma_insert_pos(m: Seq<(Seq<char>, Yaml)>, key: Seq<char>)
    ensures
        0 <= insert_pos(m, key) <= m.len(),
        forall|i: int| 0 <= i < insert_pos(m, key) ==> seq_lt(#[trigger] m[i].0, key),
        insert_pos(m, key) < m.len() ==> !seq_lt(m[insert_pos(m, key)].0, key),
        map_insert(m, key, Yaml::Null).len() >= 0,
    decreases m.len(),
{
    if m.len() > 0 && seq_lt(m[0].0, key) {
        lemma_insert_pos(m.drop_first(), key);
        assert forall|i: int| 0 <= i < insert_pos(m, key) implies seq_lt(#[trigger] m[i].0, key) by {
            if i > 0 {
                assert(m[i] == m.drop_first()[i - 1]);
            }
        }
    }
}

proof fn lemma_map_insert_shape(m: Seq<(Seq<char>, Yaml)>, key: Seq<char>, v: Yaml)
    ensures
        ({
            let p = insert_pos(m, key);
            if p < m.len() && m[p].0 == key {
                map_insert(m, key, v) == m.update(p, (key, v))
            } else {
                map_insert(m, key, v) == m.insert(p, (key, v))
            }
        }),
    decreases m.len(),
{
    lemma_insert_pos(m, key);
    if m.len() == 0 {
        assert(map_insert(m, key, v) =~= m.insert(0, (key, v)));
    } else if m[0].0 == key {
        lemma_lt_irreflexive(key);
        assert(map_insert(m, key, v) =~= m.update(0, (key, v)));
    } else if seq_lt(key, m[0].0) {
        lemma_lt_asymmetric(key, m[0].0);
        assert(map_insert(m, key, v) =~= m.insert(0, (key, v)));
    } else {
        lemma_lt_trichotomy(key, m[0].0);
        lemma_map_insert_shape(m.drop_first(), key, v);
        let p = insert_pos(m, key);
        let t = m.drop_first();
        if p < m.len() && m[p].0 == key {
            assert(map_insert(m, key, v) =~= m.update(p, (key, v)));
        } else {
            assert(map_insert(m, key, v) =~= m.insert(p, (key, v)));
        }
    }
}

/// Inserting keeps a map's keys strictly increasing.
pub proof fn lemma_map_insert_sorted(m: Seq<(Seq<char>, Yaml)>, key: Seq<char>, v: Yaml)
    requires
        keys_sorted(m),
    ensures
        keys_sorted(map_insert(m, key, v)),
        map_get(map_insert(m, key, v), key) == Some(v),
    decreases m.len(),
{
    if m.len() == 0 {
    } else if m[0].0 == key {
        let r = map_insert(m, key, v);
        assert forall|i: int, j: int| 0 <= i < j < r.len() implies seq_lt(
            #[trigger] r[i].0,
            #[trigger] r[j].0,
        ) by {
            if i == 0 {
                assert(r[j] == m[j]);
            } else {
                assert(r[i] == m[i] && r[j] == m[j]);
            }
        }
    } else if seq_lt(key, m[0].0) {
        let r = map_insert(m, key, v);
        assert forall|i: int, j: int| 0 <= i < j < r.len() implies seq_lt(
            #[trigger] r[i].0,
            #[trigger] r[j].0,
        ) by {
            if i == 0 {
                if j > 1 {
                    lemma_lt_transitive(key, m[0].0, m[j - 1].0);
                }
            } else {
                assert(r[i] == m[i - 1] && r[j] == m[j - 1]);
            }
        }
    } else {
        let t = m.drop_first();
        assert(keys_sorted(t)) by {
            assert forall|i: int, j: int| 0 <= i < j < t.len() implies seq_lt(
                #[trigger] t[i].0,
                #[trigger] t[j].0,
            ) by {
                assert(t[i] == m[i + 1] && t[j] == m[j + 1]);
            }
        }
        lemma_map_insert_sorted(t, key, v);
        lemma_lt_trichotomy(key, m[0].0);
        let rt = map_insert(t, key, v);
        let r = map_insert(m, key, v);
        assert(r == seq![m[0]] + rt);
        lemma_map_insert_elems(t, key, v);
        assert forall|i: int, j: int| 0 <= i < j < r.len() implies seq_lt(
            #[trigger] r[i].0,
            #[trigger] r[j].0,
        ) by {
            if i == 0 {
                assert(r[j] == rt[j - 1]);
                let e = rt[j - 1];
                if e.0 == key {
                } else {
                    let q = choose|q: int| 0 <= q < t.len() && t[q] == e;
                    assert(m[q + 1] == e);
                }
            } else {
                assert(r[i] == rt[i - 1] && r[j] == rt[j - 1]);
            }
        }
        assert(r.drop_first() =~= rt);
        assert(map_get(r, key) == map_get(rt, key));
    }
}

proof fn lemma_map_insert_elems(m: Seq<(Seq<char>, Yaml)>, key: Seq<char>, v: Yaml)
    ensures
        forall|i: int|
            0 <= i < map_insert(m, key, v).len() ==> #[trigger] map_insert(m, key, v)[i].0 == key
                || exists|q: int| 0 <= q < m.len() && m[q] == map_insert(m, key, v)[i],
    decreases m.len(),
{
    let r = map_insert(m, key, v);
    if m.len() == 0 {
    } else if m[0].0 == key {
        assert forall|i: int| 0 <= i < r.len() implies #[trigger] r[i].0 == key || exists|q: int|
            0 <= q < m.len() && m[q] == r[i] by {
            if i > 0 {
                assert(m[i] == r[i]);
            }
        }
    } else if seq_lt(key, m[0].0) {
        assert forall|i: int| 0 <= i < r.len() implies #[trigger] r[i].0 == key || exists|q: int|
            0 <= q < m.len() && m[q] == r[i] by {
            if i > 0 {
                assert(m[i - 1] == r[i]);
            }
        }
    } else {
        let t = m.drop_first();
        lemma_map_insert_elems(t, key, v);
        let rt = map_insert(t, key, v);
        assert forall|i: int| 0 <= i < r.len() implies #[trigger] r[i].0 == key || exists|q: int|
            0 <= q < m.len() && m[q] == r[i] by {
            if i == 0 {
                assert(m[0] == r[0]);
            } else {
                assert(r[i] == rt[i - 1]);
                if rt[i - 1].0 != key {
                    let q = choose|q: int| 0 <= q < t.len() && t[q] == rt[i - 1];
                    assert(m[q + 1] == r[i]);
                }
            }
        }
    }
}

fn string_lt(a: &String, b: &String) -> (r: bool)
    ensures
        r == seq_lt(a@, b@),
{
    let x = chars_of(a.as_str());
    let y = chars_of(b.as_str());
    lt(x.as_slice(), y.as_slice())
}

/// `BTreeMap::insert` on a sorted entry list.
pub fn map_put(m: &mut Entries, key: String, v: Value)
    ensures
        map_view(final(m)@) == map_insert(map_view(old(m)@), key@, v@),
{
    let ghost mv = map_view(m@);
    proof {
        lemma_entries_view(m@, 0);
        lemma_insert_pos(mv, key@);
        lemma_map_insert_shape(mv, key@, v@);
    }
    let mut k: usize = 0;
    while k < m.len() && string_lt(&m[k].0, &key)
        invariant
            k <= m@.len(),
            mv == map_view(m@),
            mv.len() == m@.len(),
            forall|i: int| 0 <= i < mv.len() ==> #[trigger] mv[i] == (m@[i].0@, view_of(m@[i].1)),
            forall|i: int| 0 <= i < k ==> seq_lt(#[trigger] mv[i].0, key@),
        decreases m@.len() - k,
    {
        k += 1;
    }
    assert(k == insert_pos(mv, key@)) by {
        if k < insert_pos(mv, key@) {
            assert(seq_lt(mv[k as int].0, key@));
        } else if k > insert_pos(mv, key@) {
            let p = insert_pos(mv, key@);
            assert(seq_lt(mv[p].0, key@));
        }
    }
    if k < m.len() && m[k].0 == key {
        let ghost before = m@;
        m.set(k, (key, v));
        proof {
            lemma_entries_eq(m@, mv.update(k as int, (key@, v@)));
        }
    } else {
        let ghost before = m@;
        m.insert(k, (key, v));
        proof {
            let target = mv.insert(k as int, (key@, v@));
            assert forall|i: int| 0 <= i < m@.len() implies #[trigger] target[i] == (
            m@[i].0@, view_of(m@[i].1)) by {
                if i < k {
                } else if i == k {
                } else {
                    assert(m@[i] == before[i - 1]);
                }
            }
            lemma_entries_eq(m@, target);
        }
    }
}

// ---------------------------------------------------------------------------
// scalars
// ---------------------------------------------------------------------------

pub open spec fn is_quote(c: char) -> bool {
    c == '"' || c == '\''
}

/// Index of the first `:` outside quotes that ends the text or is followed
/// by a space.
pub open spec fn key_colon(t: Seq<char>, i: int, q: Option<char>) -> Option<int>
    decreases t.len() - i,
{
    if i < 0 || i >= t.len() {
        None
    } else {
        match q {
            Some(qc) => if t[i] == qc {
                key_colon(t, i + 1, None)
            } else {
                key_colon(t, i + 1, q)
            },
            None => if is_quote(t[i]) {
                key_colon(t, i + 1, Some(t[i]))
            } else if t[i] == ':' && (i + 1 == t.len() || t[i + 1] == ' ') {
                Some(i)
            } else {
                key_colon(t, i + 1, None)
            },
        }
    }
}

proof fn lemma_key_colon(t: Seq<char>, i: int, q: Option<char>)
    requires
        0 <= i,
    ensures
        key_colon(t, i, q) matches Some(k) ==> i <= k < t.len(),
    decreases t.len() - i,
{
    if i < t.len() {
        match q {
            Some(qc) => if t[i] == qc {
                lemma_key_colon(t, i + 1, None);
            } else {
                lemma_key_colon(t, i + 1, q);
            },
            None => if is_quote(t[i]) {
                lemma_key_colon(t, i + 1, Some(t[i]));
            } else if t[i] == ':' && (i + 1 == t.len() || t[i + 1] == ' ') {
            } else {
                lemma_key_colon(t, i + 1, None);
            },
        }
    }
}

/// `key: value` split on the first structural colon, honouring quoted keys.
pub open spec fn split_key(t: Seq<char>) -> Option<(Seq<char>, Seq<char>)> {
    match key_colon(t, 0, None) {
        Some(i) => {
            let key = unquote(trim(t.subrange(0, i)));
            if key.len() == 0 {
                None
            } else {
                Some((key, trim(t.subrange(i + 1, t.len() as int))))
            }
        },
        None => None,
    }
}

/// Position where a trailing ` # comment` starts, outside quotes.
pub open spec fn comment_at(t: Seq<char>, i: int, q: Option<char>) -> int
    decreases t.len() - i,
{
    if i < 0 || i >= t.len() {
        t.len() as int
    } else {
        match q {
            Some(qc) => if t[i] == qc {
                comment_at(t, i + 1, None)
            } else {
                comment_at(t, i + 1, q)
            },
            None => if is_quote(t[i]) {
                comment_at(t, i + 1, Some(t[i]))
            } else if t[i] == '#' && i > 0 && t[i - 1] == ' ' {
                i
            } else {
                comment_at(t, i + 1, None)
            },
        }
    }
}

proof fn lemma_comment_at(t: Seq<char>, i: int, q: Option<char>)
    requires
        0 <= i <= t.len(),
    ensures
        i <= comment_at(t, i, q) <= t.len(),
    decreases t.len() - i,
{
    if i < t.len() {
        match q {
            Some(qc) => if t[i] == qc {
                lemma_comment_at(t, i + 1, None);
            } else {
                lemma_comment_at(t, i + 1, q);
            },
            None => if is_quote(t[i]) {
                lemma_comment_at(t, i + 1, Some(t[i]));
            } else if t[i] == '#' && i > 0 && t[i - 1] == ' ' {
            } else {
                lemma_comment_at(t, i + 1, None);
            },
        }
    }
}

/// A value without a trailing ` # comment` (never cut inside quotes or a
/// `#tag`).
pub open spec fn strip_comment(t: Seq<char>) -> Seq<char> {
    trim_end(t.subrange(0, comment_at(t, 0, None)))
}

/// `s` with every non-overlapping `pat` (left to right) replaced by `rep`,
/// from position `i` on (`str::replace`).
pub open spec fn replace_from(s: Seq<char>, pat: Seq<char>, rep: Seq<char>, i: int) -> Seq<char>
    decreases s.len() - i,
{
    if i < 0 || i >= s.len() || pat.len() == 0 {
        s.subrange(if 0 <= i <= s.len() { i } else { s.len() as int }, s.len() as int)
    } else if occurs_at(s, pat, i) {
        rep + replace_from(s, pat, rep, i + pat.len())
    } else {
        seq![s[i]] + replace_from(s, pat, rep, i + 1)
    }
}

pub open spec fn replace(s: Seq<char>, pat: Seq<char>, rep: Seq<char>) -> Seq<char> {
    replace_from(s, pat, rep, 0)
}

pub fn replace_exec(s: &[char], pat: &[char], rep: &[char]) -> (r: Vec<char>)
    requires
        pat@.len() > 0,
    ensures
        r@ == replace(s@, pat@, rep@),
{
    let mut out: Vec<char> = Vec::new();
    let mut i: usize = 0;
    while i < s.len()
        invariant
            i <= s@.len(),
            pat@.len() > 0,
            out@ + replace_from(s@, pat@, rep@, i as int) == replace(s@, pat@, rep@),
        decreases s@.len() - i,
    {
        let ghost before = out@;
        if occurs_at_exec(s, pat, i) {
            let mut k: usize = 0;
            while k < rep.len()
                invariant
                    k <= rep@.len(),
                    out@ == before + rep@.subrange(0, k as int),
                decreases rep@.len() - k,
            {
                out.push(rep[k]);
                k += 1;
            }
            assert(rep@.subrange(0, rep@.len() as int) =~= rep@);
            assert(before + replace_from(s@, pat@, rep@, i as int) =~= out@ + replace_from(
                s@,
                pat@,
                rep@,
                i + pat@.len(),
            ));
            i = i + pat.len();
        } else {
            out.push(s[i]);
            assert(before + replace_from(s@, pat@, rep@, i as int) =~= out@ + replace_from(
                s@,
                pat@,
                rep@,
                i + 1,
            ));
            i += 1;
        }
    }
    assert(replace_from(s@, pat@, rep@, i as int) =~= Seq::<char>::empty());
    assert(out@ + replace_from(s@, pat@, rep@, i as int) =~= out@);
    out
}

/// Quotes around a scalar removed: `\"` and `\\` unescaped in double
/// quotes, `''` in single quotes.
pub open spec fn unquote(t: Seq<char>) -> Seq<char> {
    let inner = t.subrange(1, t.len() - 1);
    if t.len() >= 2 && t[0] == '"' && t[t.len() - 1] == '"' {
        replace(replace(inner, seq!['\\', '"'], seq!['"']), seq!['\\', '\\'], seq!['\\'])
    } else if t.len() >= 2 && t[0] == '\'' && t[t.len() - 1] == '\'' {
        replace(inner, seq!['\'', '\''], seq!['\''])
    } else {
        t
    }
}

pub fn unquote_exec(t: &[char]) -> (r: Vec<char>)
    ensures
        r@ == unquote(t@),
{
    if t.len() >= 2 && t[0] == '"' && t[t.len() - 1] == '"' {
        let inner = slice_of(t, 1, t.len() - 1);
        let a = replace_exec(inner.as_slice(), &['\\', '"'], &['"']);
        let b = replace_exec(a.as_slice(), &['\\', '\\'], &['\\']);
        assert(['\\', '"']@ =~= seq!['\\', '"']);
        assert(['"']@ =~= seq!['"']);
        assert(['\\', '\\']@ =~= seq!['\\', '\\']);
        assert(['\\']@ =~= seq!['\\']);
        b
    } else if t.len() >= 2 && t[0] == '\'' && t[t.len() - 1] == '\'' {
        let inner = slice_of(t, 1, t.len() - 1);
        assert(['\'', '\'']@ =~= seq!['\'', '\'']);
        assert(['\'']@ =~= seq!['\'']);
        replace_exec(inner.as_slice(), &['\'', '\''], &['\''])
    } else {
        slice_of(t, 0, t.len())
    }
}

pub fn split_key_exec(t: &[char]) -> (r: Option<(Vec<char>, Vec<char>)>)
    ensures
        match (r, split_key(t@)) {
            (Some((k, v)), Some((sk, sv))) => k@ == sk && v@ == sv && v@.len() < t@.len(),
            (None, None) => true,
            _ => false,
        },
{
    let mut i: usize = 0;
    let mut q: Option<char> = None;
    while i < t.len()
        invariant
            i <= t@.len(),
            key_colon(t@, i as int, q) == key_colon(t@, 0, None),
        decreases t@.len() - i,
    {
        let b = t[i];
        match q {
            Some(qc) => {
                if b == qc {
                    q = None;
                }
            },
            None => {
                if b == '"' || b == '\'' {
                    q = Some(b);
                } else if b == ':' && (i + 1 == t.len() || t[i + 1] == ' ') {
                    let kt = slice_of(t, 0, i);
                    let ktt = trim_vec(kt.as_slice());
                    let key = unquote_exec(ktt.as_slice());
                    if key.len() == 0 {
                        return None;
                    }
                    let rest = slice_of(t, i + 1, t.len());
                    let rt = trim_vec(rest.as_slice());
                    proof {
                        crate::text::lemma_skip_ws_bounds(rest@, 0);
                        let s1 = trim_start_of(rest@);
                        crate::text::lemma_back_ws_bounds(s1, s1.len() as int);
                    }
                    return Some((key, rt));
                }
            },
        }
        i += 1;
    }
    None
}

spec fn trim_start_of(s: Seq<char>) -> Seq<char> {
    crate::text::trim_start(s)
}

pub fn strip_comment_exec(t: &[char]) -> (r: Vec<char>)
    ensures
        r@ == strip_comment(t@),
        r@.len() <= t@.len(),
{
    let mut i: usize = 0;
    let mut q: Option<char> = None;
    proof {
        lemma_comment_at(t@, 0, None);
    }
    while i < t.len()
        invariant
            i <= t@.len(),
            comment_at(t@, i as int, q) == comment_at(t@, 0, None),
        decreases t@.len() - i,
    {
        let b = t[i];
        match q {
            Some(qc) => {
                if b == qc {
                    q = None;
                }
            },
            None => {
                if b == '"' || b == '\'' {
                    q = Some(b);
                } else if b == '#' && i > 0 && t[i - 1] == ' ' {
                    let head = slice_of(t, 0, i);
                    let r = trim_end_vec(head.as_slice());
                    proof {
                        crate::text::lemma_back_ws_bounds(head@, head@.len() as int);
                    }
                    return r;
                }
            },
        }
        i += 1;
    }
    let head = slice_of(t, 0, t.len());
    proof {
        crate::text::lemma_back_ws_bounds(head@, head@.len() as int);
    }
    trim_end_vec(head.as_slice())
}

/// Comma-separated parts of an inline collection, split only where the comma
/// is neither nested nor quoted; parts trimmed, empty parts dropped.
pub open spec fn inline_parts(
    t: Seq<char>,
    i: int,
    cur: Seq<char>,
    depth: nat,
    q: Option<char>,
    parts: Seq<Seq<char>>,
) -> Seq<Seq<char>>
    decreases t.len() - i,
{
    if i < 0 || i >= t.len() {
        nonempty(
            if trim(cur).len() > 0 {
                parts.push(trim(cur))
            } else {
                parts
            },
        )
    } else {
        let ch = t[i];
        match q {
            Some(qc) => if ch == qc {
                inline_parts(t, i + 1, cur.push(ch), depth, None, parts)
            } else {
                inline_parts(t, i + 1, cur.push(ch), depth, q, parts)
            },
            None => if is_quote(ch) {
                inline_parts(t, i + 1, cur.push(ch), depth, Some(ch), parts)
            } else if ch == '[' || ch == '{' {
                inline_parts(t, i + 1, cur.push(ch), depth + 1, None, parts)
            } else if ch == ']' || ch == '}' {
                inline_parts(
                    t,
                    i + 1,
                    cur.push(ch),
                    if depth == 0 {
                        0
                    } else {
                        (depth - 1) as nat
                    },
                    None,
                    parts,
                )
            } else if ch == ',' && depth == 0 {
                inline_parts(t, i + 1, seq![], 0, None, parts.push(trim(cur)))
            } else {
                inline_parts(t, i + 1, cur.push(ch), depth, None, parts)
            },
        }
    }
}

/// The non-empty members of `parts`, in order.
pub open spec fn nonempty(parts: Seq<Seq<char>>) -> Seq<Seq<char>>
    decreases parts.len(),
{
    if parts.len() == 0 {
        seq![]
    } else if parts.last().len() > 0 {
        nonempty(parts.drop_last()).push(parts.last())
    } else {
        nonempty(parts.drop_last())
    }
}

pub open spec fn split_inline(t: Seq<char>) -> Seq<Seq<char>> {
    inline_parts(t, 0, seq![], 0, None, seq![])
}

proof fn lemma_trim_len(s: Seq<char>)
    ensures
        trim(s).len() <= s.len(),
{
    crate::text::lemma_skip_ws_bounds(s, 0);
    let a = crate::text::trim_start(s);
    crate::text::lemma_back_ws_bounds(a, a.len() as int);
}

fn nonempty_exec(parts: Vec<Vec<char>>) -> (r: Vec<Vec<char>>)
    ensures
        r@.map_values(|p: Vec<char>| p@) == nonempty(parts@.map_values(|p: Vec<char>| p@)),
        forall|k: int|
            0 <= k < r@.len() ==> exists|j: int|
                0 <= j < parts@.len() && (#[trigger] r@[k])@ == parts@[j]@,
{
    let mut out: Vec<Vec<char>> = Vec::new();
    let ghost pv = parts@.map_values(|p: Vec<char>| p@);
    let mut k: usize = 0;
    while k < parts.len()
        invariant
            k <= parts@.len(),
            pv == parts@.map_values(|p: Vec<char>| p@),
            out@.map_values(|p: Vec<char>| p@) == nonempty(pv.subrange(0, k as int)),
            forall|m: int|
                0 <= m < out@.len() ==> exists|j: int|
                    0 <= j < parts@.len() && (#[trigger] out@[m])@ == parts@[j]@,
        decreases parts@.len() - k,
    {
        let p = slice_of(parts[k].as_slice(), 0, parts[k].len());
        assert(pv.subrange(0, k + 1).drop_last() =~= pv.subrange(0, k as int));
        assert(pv.subrange(0, k + 1).last() == parts@[k as int]@);
        assert(p@ =~= parts@[k as int]@);
        if p.len() > 0 {
            let ghost before = out@.map_values(|p: Vec<char>| p@);
            out.push(p);
            assert(out@.map_values(|p: Vec<char>| p@) =~= before.push(parts@[k as int]@));
            assert forall|m: int| 0 <= m < out@.len() implies exists|j: int|
                0 <= j < parts@.len() && (#[trigger] out@[m])@ == parts@[j]@ by {
                if m == out@.len() - 1 {
                    assert(out@[m]@ == parts@[k as int]@);
                }
            }
        }
        k += 1;
    }
    assert(pv.subrange(0, parts@.len() as int) =~= pv);
    out
}

pub fn split_inline_exec(t: &[char]) -> (r: Vec<Vec<char>>)
    ensures
        r@.map_values(|p: Vec<char>| p@) == split_inline(t@),
        forall|k: int| 0 <= k < r@.len() ==> (#[trigger] r@[k])@.len() <= t@.len(),
{
    let mut parts: Vec<Vec<char>> = Vec::new();
    let mut current: Vec<char> = Vec::new();
    let mut depth: usize = 0;
    let mut quote: Option<char> = None;
    let mut i: usize = 0;
    assert(parts@.map_values(|p: Vec<char>| p@) =~= Seq::<Seq<char>>::empty());
    assert(current@ =~= Seq::<char>::empty());
    while i < t.len()
        invariant
            i <= t@.len(),
            current@.len() <= i,
            depth <= i,
            forall|k: int| 0 <= k < parts@.len() ==> (#[trigger] parts@[k])@.len() <= t@.len(),
            inline_parts(
                t@,
                i as int,
                current@,
                depth as nat,
                quote,
                parts@.map_values(|p: Vec<char>| p@),
            ) == split_inline(t@),
        decreases t@.len() - i,
    {
        let ch = t[i];
        let ghost pv = parts@.map_values(|p: Vec<char>| p@);
        match quote {
            Some(qc) => {
                current.push(ch);
                if ch == qc {
                    quote = None;
                }
            },
            None => {
                if ch == '"' || ch == '\'' {
                    quote = Some(ch);
                    current.push(ch);
                } else if ch == '[' || ch == '{' {
                    depth += 1;
                    current.push(ch);
                } else if ch == ']' || ch == '}' {
                    depth = if depth == 0 {
                        0
                    } else {
                        depth - 1
                    };
                    current.push(ch);
                } else if ch == ',' && depth == 0 {
                    let tc = trim_vec(current.as_slice());
                    proof {
                        lemma_trim_len(current@);
                    }
                    parts.push(tc);
                    assert(parts@.map_values(|p: Vec<char>| p@) =~= pv.push(trim(current@)));
                    current = Vec::new();
                } else {
                    current.push(ch);
                }
            },
        }
        i += 1;
    }
    let tail = trim_vec(current.as_slice());
    proof {
        lemma_trim_len(current@);
    }
    let ghost pv = parts@.map_values(|p: Vec<char>| p@);
    if tail.len() > 0 {
        parts.push(tail);
        assert(parts@.map_values(|p: Vec<char>| p@) =~= pv.push(trim(current@)));
    }
    let r = nonempty_exec(parts);
    r
}

pub open spec fn ascii_lower(c: char) -> char {
    if 'A' <= c && c <= 'Z' {
        ((c as u32) + 32) as char
    } else {
        c
    }
}

/// ASCII case-insensitive equality with a lowercase ASCII word
/// (`str::eq_ignore_ascii_case`).
pub open spec fn eq_ignore_case(t: Seq<char>, word: Seq<char>) -> bool {
    t.len() == word.len() && forall|k: int| 0 <= k < t.len() ==> ascii_lower(#[trigger] t[k]) == word[k]
}

pub fn eq_ignore_case_exec(t: &[char], word: &[char]) -> (r: bool)
    requires
        forall|k: int| 0 <= k < word@.len() ==> (#[trigger] word@[k] as u32) < 128,
    ensures
        r == eq_ignore_case(t@, word@),
{
    if t.len() != word.len() {
        return false;
    }
    let mut k: usize = 0;
    while k < t.len()
        invariant
            k <= t@.len() == word@.len(),
            forall|m: int| 0 <= m < k ==> ascii_lower(#[trigger] t@[m]) == word@[m],
        decreases t@.len() - k,
    {
        let c = t[k];
        let lc = if 'A' <= c && c <= 'Z' {
            ((c as u32) + 32) as u8 as char
        } else {
            c
        };
        assert(lc == ascii_lower(c)) by {
            if 'A' <= c && c <= 'Z' {
                assert(((c as u32) + 32) < 128);
            }
        }
        if lc != word[k] {
            return false;
        }
        k += 1;
    }
    true
}

/// Decimal value of a run of ASCII digits.
pub open spec fn digits_value(d: Seq<char>) -> int
    decreases d.len(),
{
    if d.len() == 0 {
        0
    } else {
        10 * digits_value(d.drop_last()) + (d.last() as int - '0' as int)
    }
}

/// The digits of an integer literal: the text after an optional sign.
pub open spec fn int_digits(t: Seq<char>) -> Seq<char> {
    if t.len() > 0 && (t[0] == '+' || t[0] == '-') {
        t.subrange(1, t.len() as int)
    } else {
        t
    }
}

/// `i64::from_str`: an optional sign, then one or more ASCII digits, in range.
pub open spec fn parse_i64(t: Seq<char>) -> Option<int> {
    let v = if t.len() > 0 && t[0] == '-' {
        -digits_value(int_digits(t))
    } else {
        digits_value(int_digits(t))
    };
    if int_digits(t).len() == 0 || exists|k: int|
        0 <= k < int_digits(t).len() && !crate::text::is_ascii_digit(#[trigger] int_digits(t)[k]) {
        None
    } else if v < i64::MIN || v > i64::MAX {
        None
    } else {
        Some(v)
    }
}

pub proof fn lemma_digits_grow(d: Seq<char>, k: int)
    requires
        0 <= k <= d.len(),
        forall|m: int| 0 <= m < d.len() ==> crate::text::is_ascii_digit(#[trigger] d[m]),
    ensures
        digits_value(d.subrange(0, k)) <= digits_value(d),
        0 <= digits_value(d.subrange(0, k)),
    decreases d.len() - k,
{
    if k < d.len() {
        lemma_digits_grow(d, k + 1);
        assert(d.subrange(0, k + 1).drop_last() =~= d.subrange(0, k));
        lemma_digits_nonneg(d.subrange(0, k));
    } else {
        assert(d.subrange(0, k) =~= d);
        lemma_digits_nonneg(d);
    }
}

pub proof fn lemma_digits_nonneg(d: Seq<char>)
    requires
        forall|m: int| 0 <= m < d.len() ==> crate::text::is_ascii_digit(#[trigger] d[m]),
    ensures
        0 <= digits_value(d),
    decreases d.len(),
{
    if d.len() > 0 {
        lemma_digits_nonneg(d.drop_last());
    }
}

#[verifier::loop_isolation(false)]
pub fn parse_i64_exec(t: &[char]) -> (r: Option<i64>)
    ensures
        match (r, parse_i64(t@)) {
            (Some(a), Some(b)) => a as int == b,
            (None, None) => true,
            _ => false,
        },
{
    let signed = t.len() > 0 && (t[0] == '+' || t[0] == '-');
    let neg = signed && t[0] == '-';
    let start: usize = if signed {
        1
    } else {
        0
    };
    let d = slice_of(t, start, t.len());
    assert(d@ =~= int_digits(t@));
    if d.len() == 0 {
        return None;
    }
    let mut k: usize = 0;
    while k < d.len()
        invariant
            k <= d@.len(),
            forall|m: int| 0 <= m < k ==> crate::text::is_ascii_digit(#[trigger] d@[m]),
        decreases d@.len() - k,
    {
        if !('0' <= d[k] && d[k] <= '9') {
            assert(!crate::text::is_ascii_digit(d@[k as int]));
            assert(!crate::text::is_ascii_digit(int_digits(t@)[k as int]));
            return None;
        }
        k += 1;
    }
    let mut acc: u128 = 0;
    let mut j: usize = 0;
    while j < d.len()
        invariant
            j <= d@.len(),
            forall|m: int| 0 <= m < d@.len() ==> crate::text::is_ascii_digit(#[trigger] d@[m]),
            acc as int == digits_value(d@.subrange(0, j as int)),
            acc <= 9223372036854775808,
        decreases d@.len() - j,
    {
        assert(d@.subrange(0, j + 1).drop_last() =~= d@.subrange(0, j as int));
        let digit = (d[j] as u32 - '0' as u32) as u128;
        let next = acc * 10 + digit;
        if next > 9223372036854775808 {
            proof {
                lemma_digits_grow(d@, j + 1);
            }
            return None;
        }
        acc = next;
        j += 1;
    }
    assert(d@.subrange(0, d@.len() as int) =~= d@);
    if neg {
        if acc == 9223372036854775808 {
            Some(i64::MIN)
        } else {
            Some(-(acc as i64))
        }
    } else {
        if acc > 9223372036854775807 {
            None
        } else {
            Some(acc as i64)
        }
    }
}

pub open spec fn tilde() -> Seq<char> {
    seq!['~']
}

pub open spec fn word_null() -> Seq<char> {
    seq!['n', 'u', 'l', 'l']
}

pub open spec fn word_true() -> Seq<char> {
    seq!['t', 'r', 'u', 'e']
}

pub open spec fn word_false() -> Seq<char> {
    seq!['f', 'a', 'l', 's', 'e']
}

/// One scalar: null, an inline list or map, a quoted string, a boolean, an
/// integer, a float, or else the text itself.
pub open spec fn scalar(raw: Seq<char>) -> Yaml
    decreases raw.len(), 1nat, 0nat,
{
    let text = strip_comment(raw);
    let inner = text.subrange(1, text.len() - 1);
    if text.len() == 0 || text == tilde() || eq_ignore_case(text, word_null()) {
        Yaml::Null
    } else if text[0] == '[' && text[text.len() - 1] == ']' {
        Yaml::Array(scalar_list(split_inline(inner), 0, raw.len()))
    } else if text[0] == '{' && text[text.len() - 1] == '}' {
        Yaml::Object(scalar_entries(split_inline(inner), 0, raw.len(), seq![]))
    } else if is_quote(text[0]) {
        Yaml::Str(unquote(text))
    } else if eq_ignore_case(text, word_true()) {
        Yaml::Bool(true)
    } else if eq_ignore_case(text, word_false()) {
        Yaml::Bool(false)
    } else if parse_i64(text) is Some {
        Yaml::Int(parse_i64(text)->0)
    } else if finite_float_literal(text) {
        Yaml::Float(text)
    } else {
        Yaml::Str(text)
    }
}

/// Scalars of the parts `k..` of an inline list (parts are shorter than
/// `bound`, the length of the enclosing text).
pub open spec fn scalar_list(parts: Seq<Seq<char>>, k: int, bound: nat) -> Seq<Yaml>
    decreases bound, 0nat, parts.len() - k,
{
    if k < 0 || k >= parts.len() {
        seq![]
    } else if parts[k].len() < bound {
        seq![scalar(parts[k])] + scalar_list(parts, k + 1, bound)
    } else {
        seq![]
    }
}

/// Entries of the parts `k..` of an inline map, added to `m`.
pub open spec fn scalar_entries(
    parts: Seq<Seq<char>>,
    k: int,
    bound: nat,
    m: Seq<(Seq<char>, Yaml)>,
) -> Seq<(Seq<char>, Yaml)>
    decreases bound, 0nat, parts.len() - k,
{
    if k < 0 || k >= parts.len() {
        m
    } else if parts[k].len() < bound {
        match split_key(parts[k]) {
            Some((key, rest)) => if rest.len() < bound {
                scalar_entries(parts, k + 1, bound, map_insert(m, key, scalar(rest)))
            } else {
                m
            },
            None => scalar_entries(parts, k + 1, bound, m),
        }
    } else {
        m
    }
}

fn is_tilde(t: &[char]) -> (r: bool)
    ensures
        r == (t@ == tilde()),
{
    let r = t.len() == 1 && t[0] == '~';
    assert(r ==> t@ =~= tilde());
    r
}

pub fn scalar_exec(raw: &[char]) -> (r: Value)
    ensures
        r@ == scalar(raw@),
    decreases raw@.len(),
{
    let text = strip_comment_exec(raw);
    if text.len() == 0 || is_tilde(text.as_slice()) || eq_ignore_case_exec(
        text.as_slice(),
        &['n', 'u', 'l', 'l'],
    ) {
        assert(['n', 'u', 'l', 'l']@ =~= word_null());
        return Value::Null;
    }
    assert(['n', 'u', 'l', 'l']@ =~= word_null());
    let n = text.len();
    if text[0] == '[' && text[n - 1] == ']' {
        let inner = slice_of(text.as_slice(), 1, n - 1);
        let parts = split_inline_exec(inner.as_slice());
        let ghost pv = parts@.map_values(|p: Vec<char>| p@);
        let mut items: Vec<Value> = Vec::new();
        let mut k: usize = 0;
        while k < parts.len()
            invariant
                k <= parts@.len(),
                pv == parts@.map_values(|p: Vec<char>| p@),
                pv == split_inline(inner@),
                inner@.len() < raw@.len(),
                forall|j: int| 0 <= j < parts@.len() ==> (#[trigger] parts@[j])@.len() <= inner@.len(),
                views_of(items@, 0) + scalar_list(pv, k as int, raw@.len()) == scalar_list(
                    pv,
                    0,
                    raw@.len(),
                ),
            decreases parts@.len() - k,
        {
            let v = scalar_exec(parts[k].as_slice());
            let ghost before = items@;
            items.push(v);
            proof {
                lemma_views_push(before, v);
                assert(pv[k as int] == parts@[k as int]@);
                assert(views_of(items@, 0) + scalar_list(pv, k + 1, raw@.len()) =~= views_of(
                    before,
                    0,
                ) + scalar_list(pv, k as int, raw@.len()));
            }
            k += 1;
        }
        assert(views_of(items@, 0) + scalar_list(pv, k as int, raw@.len()) =~= views_of(
            items@,
            0,
        ));
        return Value::Array(items);
    }
    if text[0] == '{' && text[n - 1] == '}' {
        let inner = slice_of(text.as_slice(), 1, n - 1);
        let parts = split_inline_exec(inner.as_slice());
        let ghost pv = parts@.map_values(|p: Vec<char>| p@);
        let mut map: Entries = Vec::new();
        let mut k: usize = 0;
        proof {
            lemma_entries_view(map@, 0);
            assert(map_view(map@) =~= Seq::<(Seq<char>, Yaml)>::empty());
        }
        while k < parts.len()
            invariant
                k <= parts@.len(),
                pv == parts@.map_values(|p: Vec<char>| p@),
                pv == split_inline(inner@),
                inner@.len() < raw@.len(),
                forall|j: int| 0 <= j < parts@.len() ==> (#[trigger] parts@[j])@.len() <= inner@.len(),
                scalar_entries(pv, k as int, raw@.len(), map_view(map@)) == scalar_entries(
                    pv,
                    0,
                    raw@.len(),
                    seq![],
                ),
            decreases parts@.len() - k,
        {
            assert(pv[k as int] == parts@[k as int]@);
            match split_key_exec(parts[k].as_slice()) {
                Some((key, rest)) => {
                    let v = scalar_exec(rest.as_slice());
                    map_put(&mut map, string_of(key.as_slice()), v);
                },
                None => {},
            }
            k += 1;
        }
        return Value::Object(map);
    }
    if text[0] == '"' || text[0] == '\'' {
        return Value::String(string_of(unquote_exec(text.as_slice()).as_slice()));
    }
    assert(['t', 'r', 'u', 'e']@ =~= word_true());
    assert(['f', 'a', 'l', 's', 'e']@ =~= word_false());
    if eq_ignore_case_exec(text.as_slice(), &['t', 'r', 'u', 'e']) {
        return Value::Bool(true);
    }
    if eq_ignore_case_exec(text.as_slice(), &['f', 'a', 'l', 's', 'e']) {
        return Value::Bool(false);
    }
    match parse_i64_exec(text.as_slice()) {
        Some(i) => {
            return Value::Int(i);
        },
        None => {},
    }
    if finite_float_literal_exec(text.as_slice()) {
        return Value::Float(string_of(text.as_slice()));
    }
    Value::String(string_of(text.as_slice()))
}

/// `m` without the entry for `key`.
pub open spec fn map_remove(m: Seq<(Seq<char>, Yaml)>, key: Seq<char>) -> Seq<(Seq<char>, Yaml)>
    decreases m.len(),
{
    if m.len() == 0 {
        m
    } else if m[0].0 == key {
        map_remove(m.drop_first(), key)
    } else {
        seq![m[0]] + map_remove(m.drop_first(), key)
    }
}

/// Removing a key keeps a map's keys strictly increasing; what is left are
/// entries of the map.
pub proof fn lemma_map_remove_sorted(m: Seq<(Seq<char>, Yaml)>, key: Seq<char>)
    requires
        keys_sorted(m),
    ensures
        keys_sorted(map_remove(m, key)),
        forall|i: int|
            0 <= i < map_remove(m, key).len() ==> exists|j: int|
                0 <= j < m.len() && #[trigger] map_remove(m, key)[i] == m[j],
    decreases m.len(),
{
    if m.len() > 0 {
        let t = m.drop_first();
        assert(keys_sorted(t)) by {
            assert forall|i: int, j: int| 0 <= i < j < t.len() implies seq_lt(
                #[trigger] t[i].0,
                #[trigger] t[j].0,
            ) by {
                assert(t[i] == m[i + 1] && t[j] == m[j + 1]);
            }
        }
        lemma_map_remove_sorted(t, key);
        let rt = map_remove(t, key);
        let r = map_remove(m, key);
        if m[0].0 == key {
            assert forall|i: int| 0 <= i < r.len() implies exists|j: int|
                0 <= j < m.len() && #[trigger] r[i] == m[j] by {
                let q = choose|q: int| 0 <= q < t.len() && rt[i] == t[q];
                assert(r[i] == m[q + 1]);
            }
        } else {
            assert(r == seq![m[0]] + rt);
            assert forall|i: int| 0 <= i < r.len() implies exists|j: int|
                0 <= j < m.len() && #[trigger] r[i] == m[j] by {
                if i == 0 {
                    assert(r[0] == m[0]);
                } else {
                    assert(r[i] == rt[i - 1]);
                    let q = choose|q: int| 0 <= q < t.len() && rt[i - 1] == t[q];
                    assert(r[i] == m[q + 1]);
                }
            }
            assert forall|i: int, j: int| 0 <= i < j < r.len() implies seq_lt(
                #[trigger] r[i].0,
                #[trigger] r[j].0,
            ) by {
                if i == 0 {
                    assert(r[j] == rt[j - 1]);
                    let q = choose|q: int| 0 <= q < t.len() && rt[j - 1] == t[q];
                    assert(r[j] == m[q + 1]);
                } else {
                    assert(r[i] == rt[i - 1] && r[j] == rt[j - 1]);
                }
            }
        }
    }
}

/// After binding a key, reading it gives the value bound.
pub proof fn lemma_map_insert_get(m: Seq<(Seq<char>, Yaml)>, key: Seq<char>, v: Yaml)
    ensures
        map_get(map_insert(m, key, v), key) == Some(v),
    decreases m.len(),
{
    let r = map_insert(m, key, v);
    if m.len() > 0 && m[0].0 != key && !seq_lt(key, m[0].0) {
        lemma_map_insert_get(m.drop_first(), key, v);
        assert(r[0] == m[0]);
        assert(r.drop_first() =~= map_insert(m.drop_first(), key, v));
    } else {
        assert(r[0] == (key, v));
    }
}


/// Binding a key leaves every other key's value as it was.
pub proof fn lemma_map_insert_other(m: Seq<(Seq<char>, Yaml)>, key: Seq<char>, v: Yaml, other: Seq<char>)
    requires
        other != key,
    ensures
        map_get(map_insert(m, key, v), other) == map_get(m, other),
    decreases m.len(),
{
    let r = map_insert(m, key, v);
    if m.len() == 0 {
        assert(r[0] == (key, v));
        assert(r.drop_first() =~= Seq::<(Seq<char>, Yaml)>::empty());
        assert(map_get(r, other) == map_get(r.drop_first(), other));
        assert(map_get(r.drop_first(), other) is None);
    } else if m[0].0 == key {
        assert(r[0] == (key, v));
        assert(r.drop_first() =~= m.drop_first());
        assert(map_get(r, other) == map_get(r.drop_first(), other));
        assert(map_get(m, other) == map_get(m.drop_first(), other));
    } else if seq_lt(key, m[0].0) {
        assert(r[0] == (key, v));
        assert(r.drop_first() =~= m);
        assert(map_get(r, other) == map_get(r.drop_first(), other));
    } else {
        lemma_map_insert_other(m.drop_first(), key, v, other);
        assert(r[0] == m[0]);
        assert(r.drop_first() =~= map_insert(m.drop_first(), key, v));
    }
}

/// After a removal the key is unbound, and every other key reads as before.
pub proof fn lemma_map_remove_get(m: Seq<(Seq<char>, Yaml)>, key: Seq<char>, other: Seq<char>)
    ensures
        map_get(map_remove(m, key), key) is None,
        other != key ==> map_get(map_remove(m, key), other) == map_get(m, other),
    decreases m.len(),
{
    if m.len() > 0 {
        lemma_map_remove_get(m.drop_first(), key, other);
        if m[0].0 != key {
            assert((seq![m[0]] + map_remove(m.drop_first(), key)).drop_first() =~= map_remove(
                m.drop_first(),
                key,
            ));
        }
    }
}

/// `BTreeMap::remove` on an entry list: every entry for `key` dropped.
pub fn map_drop(m: &mut Entries, key: &str)
    ensures
        map_view(final(m)@) == map_remove(map_view(old(m)@), key@),
{
    let kc = chars_of(key);
    let mut rest: Entries = Vec::new();
    std::mem::swap(m, &mut rest);
    proof {
        lemma_entries_view(rest@, 0);
        lemma_entries_view(m@, 0);
        assert(map_view(m@) =~= Seq::<(Seq<char>, Yaml)>::empty());
    }
    let ghost whole = map_remove(map_view(rest@), key@);
    while rest.len() > 0
        invariant
            whole == map_view(m@) + map_remove(map_view(rest@), key@),
            kc@ == key@,
        decreases rest@.len(),
    {
        proof {
            lemma_entries_view(rest@, 0);
            lemma_entries_view(m@, 0);
        }
        let ghost rv = map_view(rest@);
        let ghost mv = map_view(m@);
        let e = rest.remove(0);
        proof {
            lemma_entries_view(rest@, 0);
            assert(map_view(rest@) =~= rv.drop_first());
            assert(rv[0] == (e.0@, view_of(e.1)));
        }
        let same = crate::text::vec_eq(chars_of(e.0.as_str()).as_slice(), kc.as_slice());
        if !same {
            let ghost ev = (e.0@, view_of(e.1));
            m.push(e);
            proof {
                lemma_entries_view(m@, 0);
                assert(map_view(m@) =~= mv.push(ev));
                assert(mv + map_remove(rv, key@) =~= mv.push(ev) + map_remove(rv.drop_first(), key@));
            }
        }
    }
    proof {
        assert(map_remove(map_view(rest@), key@) =~= Seq::<(Seq<char>, Yaml)>::empty()) by {
            lemma_entries_view(rest@, 0);
        }
        assert(whole =~= map_view(m@));
    }
}

} // verus!
