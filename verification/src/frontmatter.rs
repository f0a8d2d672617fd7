//! Frontmatter: the `---` fenced YAML block at the top of a note.
//!
//! The block is parsed into the JSON-like [`Value`] of [`crate::yaml`] by an
//! indentation-driven reader of block maps and block sequences, and written
//! back out in the same shape.

use vstd::prelude::*;

use crate::numbers::{float_literal, float_literal_exec};
use crate::text::{
    byte_len, chars_of, contains, contains_seq, find_char, find_from, indent_bytes, is_ws,
    lemma_find_from, lines, occurs_at, skip_ws, slice_of, split_lines, string_of, trim, trim_end,
    trim_end_vec, trim_vec, vec_eq,
};
use crate::yaml::{
    Entries, Value, Yaml, eq_ignore_case, eq_ignore_case_exec, map_insert, map_put, map_view,
    replace, replace_exec, scalar, scalar_exec, split_key, split_key_exec, views_of, view_of,
    word_false, word_null, word_true, lemma_views_push, lemma_entries_view, comment_at, is_quote,
};

verus! {

// ---------------------------------------------------------------------------
// fences
// ---------------------------------------------------------------------------

/// The frontmatter block and body of a note, split apart.
#[derive(Debug, Clone, PartialEq)]
pub struct Split {
    /// Raw YAML between the fences, without the fences themselves.
    pub raw: Option<String>,
    /// Everything after the closing fence (or the whole input when unfenced).
    pub body: String,
    /// Number of lines the frontmatter block occupies, so callers can map
    /// body line numbers back onto the original file.
    pub body_line_offset: usize,
}

pub open spec fn fence() -> Seq<char> {
    seq!['-', '-', '-']
}

/// The text without a leading byte-order mark.
pub open spec fn strip_bom(c: Seq<char>) -> Seq<char> {
    if c.len() > 0 && c[0] == '\u{feff}' {
        c.drop_first()
    } else {
        c
    }
}

/// End of the line that starts at `i`, its `\n` included.
pub open spec fn piece_end(r: Seq<char>, i: int) -> int {
    let e = find_from(r, '\n', i);
    if e < r.len() {
        e + 1
    } else {
        r.len() as int
    }
}

/// Start of the first line at or after line start `i` that reads `---` once
/// trailing whitespace is dropped.
pub open spec fn closing_fence(r: Seq<char>, i: int) -> Option<int>
    decreases r.len() - i,
{
    if i < 0 || i >= r.len() {
        None
    } else if trim_end(r.subrange(i, piece_end(r, i))) == fence() {
        Some(i)
    } else {
        proof {
            lemma_find_from(r, '\n', i);
        }
        closing_fence(r, piece_end(r, i))
    }
}

/// Number of line breaks in `s`.
pub open spec fn newlines(s: Seq<char>) -> nat
    decreases s.len(),
{
    if s.len() == 0 {
        0
    } else {
        newlines(s.drop_last()) + if s.last() == '\n' {
            1nat
        } else {
            0nat
        }
    }
}

/// `(raw, body, body_line_offset)` of a note. A fence only counts when it is
/// the very first line (after a byte-order mark), and an unterminated fence
/// is no frontmatter.
pub open spec fn split_spec(c: Seq<char>) -> (Option<Seq<char>>, Seq<char>, int) {
    let wb = strip_bom(c);
    let fle = piece_end(wb, 0);
    let rest = wb.subrange(fle, wb.len() as int);
    if trim_end(wb.subrange(0, fle)) != fence() {
        (None, c, 0)
    } else {
        match closing_fence(rest, 0) {
            Some(i) => (
                Some(rest.subrange(0, i)),
                rest.subrange(piece_end(rest, i), rest.len() as int),
                2 + newlines(rest.subrange(0, i)) as int,
            ),
            None => (None, c, 0),
        }
    }
}

fn is_fence(t: &[char]) -> (r: bool)
    ensures
        r == (t@ == fence()),
{
    let r = t.len() == 3 && t[0] == '-' && t[1] == '-' && t[2] == '-';
    assert(r ==> t@ =~= fence());
    r
}

fn piece_end_exec(r: &[char], i: usize) -> (e: usize)
    requires
        i <= r@.len(),
    ensures
        e == piece_end(r@, i as int),
        i <= e <= r@.len(),
        i < r@.len() ==> i < e,
{
    let e = find_char(r, '\n', i);
    if e < r.len() {
        e + 1
    } else {
        r.len()
    }
}

/// Separate a leading `---` fenced frontmatter block from the note body.
///
/// A fence only counts when it is the very first line of the file, matching
/// how editors and static site generators treat it.
#[verifier::loop_isolation(false)]
pub fn split(content: &str) -> (r: Split)
    ensures
        ({
            let s = split_spec(content@);
            &&& r.raw.is_some() == s.0.is_some()
            &&& (r.raw matches Some(raw) ==> raw@ == s.0->0)
            &&& r.body@ == s.1
            &&& r.body_line_offset == s.2
        }),
{
    let c = chars_of(content);
    let wb = if c.len() > 0 && c[0] == '\u{feff}' {
        slice_of(c.as_slice(), 1, c.len())
    } else {
        slice_of(c.as_slice(), 0, c.len())
    };
    assert(wb@ =~= strip_bom(c@));
    let fle = piece_end_exec(wb.as_slice(), 0);
    let first = slice_of(wb.as_slice(), 0, fle);
    let first_trim = trim_end_vec(first.as_slice());
    if !is_fence(first_trim.as_slice()) {
        return Split { raw: None, body: string_of(c.as_slice()), body_line_offset: 0 };
    }
    let rest = slice_of(wb.as_slice(), fle, wb.len());
    let ghost rv = rest@;
    proof {
        crate::text::lemma_back_ws_bounds(first@, first@.len() as int);
        assert(first_trim@.len() == 3);
        assert(first_trim@.len() <= first@.len());
        assert(first@.len() == fle);
    }
    let mut offset: usize = 0;
    let mut count: usize = 1;
    while offset < rest.len()
        invariant
            rv == rest@,
            offset <= rv.len(),
            rv.len() + 3 <= wb@.len(),
            wb@.len() <= usize::MAX,
            offset < rv.len() ==> count == 1 + newlines(rv.subrange(0, offset as int)),
            count <= offset + 1,
            closing_fence(rv, offset as int) == closing_fence(rv, 0),
        decreases rv.len() - offset,
    {
        let end = piece_end_exec(rest.as_slice(), offset);
        let piece = slice_of(rest.as_slice(), offset, end);
        let piece_trim = trim_end_vec(piece.as_slice());
        if is_fence(piece_trim.as_slice()) {
            let raw = slice_of(rest.as_slice(), 0, offset);
            let body = slice_of(rest.as_slice(), end, rest.len());
            proof {
                assert(piece@ == rv.subrange(offset as int, piece_end(rv, offset as int)));
                assert(closing_fence(rv, offset as int) == Some(offset as int));
                assert(rv == strip_bom(c@).subrange(fle as int, strip_bom(c@).len() as int));
                assert(trim_end(strip_bom(c@).subrange(0, fle as int)) == fence());
                assert(split_spec(content@).2 == 2 + newlines(rv.subrange(0, offset as int)));
            }
            return Split {
                raw: Some(string_of(raw.as_slice())),
                body: string_of(body.as_slice()),
                body_line_offset: count + 1,
            };
        }
        proof {
            lemma_find_from(rv, '\n', offset as int);
            if end < rv.len() {
                lemma_newlines_piece(rv, offset as int);
            }
        }
        count = count + 1;
        offset = end;
    }
    Split { raw: None, body: string_of(c.as_slice()), body_line_offset: 0 }
}

/// Past a line that ends in `\n`, the count of line breaks grows by one.
proof fn lemma_newlines_piece(r: Seq<char>, i: int)
    requires
        0 <= i < r.len(),
        piece_end(r, i) < r.len() || find_from(r, '\n', i) < r.len(),
    ensures
        newlines(r.subrange(0, piece_end(r, i))) == newlines(r.subrange(0, i)) + 1,
{
    lemma_find_from(r, '\n', i);
    let e = find_from(r, '\n', i);
    lemma_newlines_none(r, i, e);
    assert(r.subrange(0, e + 1).drop_last() =~= r.subrange(0, e));
}

proof fn lemma_newlines_none(r: Seq<char>, i: int, e: int)
    requires
        0 <= i <= e <= r.len(),
        forall|k: int| i <= k < e ==> #[trigger] r[k] != '\n',
    ensures
        newlines(r.subrange(0, e)) == newlines(r.subrange(0, i)),
    decreases e - i,
{
    if e > i {
        lemma_newlines_none(r, i, e - 1);
        assert(r.subrange(0, e).drop_last() =~= r.subrange(0, e - 1));
    }
}

/// A full note: fenced frontmatter, a blank line when the body does not
/// start with one, then the body. With no entries, the body alone.
pub open spec fn compose_spec(m: Seq<(Seq<char>, Yaml)>, body: Seq<char>) -> Seq<char> {
    if m.len() == 0 {
        body
    } else {
        fence() + seq!['\n'] + yaml_text(m) + fence() + seq!['\n'] + (if body.len() > 0 && body[0]
            != '\n' {
            seq!['\n']
        } else {
            seq![]
        }) + body
    }
}

// ---------------------------------------------------------------------------
// lines
// ---------------------------------------------------------------------------

/// One meaningful frontmatter line: the UTF-8 width of its indentation and
/// its trimmed text.
pub struct Line {
    pub indent: u128,
    pub text: Vec<char>,
}

/// A line as `(indent, text)`.
pub open spec fn line_of(l: Seq<char>) -> (int, Seq<char>) {
    (byte_len(l.subrange(0, skip_ws(l, 0))) as int, trim(l))
}

/// A line carries content: it is neither blank nor a `#` comment.
pub open spec fn meaningful(p: (int, Seq<char>)) -> bool {
    p.1.len() > 0 && p.1[0] != '#'
}

/// The meaningful lines among `ls`, in order.
pub open spec fn meaningful_lines(ls: Seq<Seq<char>>) -> Seq<(int, Seq<char>)>
    decreases ls.len(),
{
    if ls.len() == 0 {
        seq![]
    } else {
        let rest = meaningful_lines(ls.drop_last());
        if meaningful(line_of(ls.last())) {
            rest.push(line_of(ls.last()))
        } else {
            rest
        }
    }
}

/// The meaningful lines of a frontmatter block, in order.
pub open spec fn collect_lines(raw: Seq<char>) -> Seq<(int, Seq<char>)> {
    meaningful_lines(lines(raw))
}

pub open spec fn lines_view(ls: Seq<Line>) -> Seq<(int, Seq<char>)> {
    ls.map_values(|l: Line| (l.indent as int, l.text@))
}

/// Indents stay far below the range of `u128`.
pub open spec fn indents_ok(ls: Seq<(int, Seq<char>)>) -> bool {
    forall|i: int| 0 <= i < ls.len() ==> 0 <= #[trigger] ls[i].0 <= 0x10000000000000000000
}

fn collect_lines_exec(raw: &[char]) -> (r: Vec<Line>)
    ensures
        lines_view(r@) == collect_lines(raw@),
        indents_ok(lines_view(r@)),
{
    let all = split_lines(raw);
    let ghost ls = all@.map_values(|l: Vec<char>| l@);
    let mut out: Vec<Line> = Vec::new();
    let mut k: usize = 0;
    while k < all.len()
        invariant
            k <= all@.len(),
            ls == all@.map_values(|l: Vec<char>| l@),
            ls == lines(raw@),
            lines_view(out@) == meaningful_lines(ls.subrange(0, k as int)),
            indents_ok(lines_view(out@)),
        decreases all@.len() - k,
    {
        let line = &all[k];
        let n = line.len();
        assert(ls[k as int] == line@);
        let indent = indent_bytes(line.as_slice());
        let text = trim_vec(line.as_slice());
        let ghost before = out@;
        proof {
            assert(ls.subrange(0, k + 1).drop_last() =~= ls.subrange(0, k as int));
            assert(ls.subrange(0, k + 1).last() == line@);
            lemma_indent_bound(line@);
        }
        if text.len() > 0 && text[0] != '#' {
            out.push(Line { indent, text });
            assert(lines_view(out@) =~= lines_view(before).push((indent as int, text@)));
        }
        k += 1;
    }
    assert(ls.subrange(0, k as int) =~= ls);
    out
}

proof fn lemma_indent_bound(l: Seq<char>)
    requires
        l.len() <= usize::MAX,
    ensures
        byte_len(l.subrange(0, skip_ws(l, 0))) <= 0x10000000000000000000,
{
    crate::text::lemma_skip_ws_bounds(l, 0);
    lemma_byte_len_bound(l.subrange(0, skip_ws(l, 0)));
}

proof fn lemma_byte_len_bound(s: Seq<char>)
    ensures
        byte_len(s) <= 4 * s.len(),
    decreases s.len(),
{
    if s.len() > 0 {
        lemma_byte_len_bound(s.drop_last());
    }
}

// ---------------------------------------------------------------------------
// the block grammar
// ---------------------------------------------------------------------------

/// `- item` or a bare `-`.
pub open spec fn is_item(t: Seq<char>) -> bool {
    (t.len() >= 2 && t[0] == '-' && t[1] == ' ') || (t.len() == 1 && t[0] == '-')
}

pub open spec fn dash_space(t: Seq<char>) -> bool {
    t.len() >= 2 && t[0] == '-' && t[1] == ' '
}

/// What follows `- ` on an item line, trimmed.
pub open spec fn item_inline(t: Seq<char>) -> Seq<char> {
    if dash_space(t) {
        trim(t.subrange(2, t.len() as int))
    } else {
        seq![]
    }
}

pub open spec fn clamp(x: int, lo: int, hi: int) -> int {
    if x < lo {
        lo
    } else if x > hi {
        hi
    } else {
        x
    }
}

/// The block that starts at line `c`: a sequence when its first line is an
/// item, a map otherwise. Returns the value and the line after it.
pub open spec fn block_value(ls: Seq<(int, Seq<char>)>, c: int, indent: int) -> (Yaml, int)
    decreases ls.len() - c, 2nat,
{
    if c < 0 || c >= ls.len() {
        (Yaml::Null, c)
    } else if is_item(ls[c].1) {
        let r = seq_items(ls, c, indent);
        (Yaml::Array(r.0), r.1)
    } else {
        let r = map_entries(ls, c, indent, seq![]);
        (Yaml::Object(r.0), r.1)
    }
}

/// Items of a block sequence at `indent`, from line `c` on.
pub open spec fn seq_items(ls: Seq<(int, Seq<char>)>, c: int, indent: int) -> (Seq<Yaml>, int)
    decreases ls.len() - c, 1nat,
{
    if c < 0 || c >= ls.len() || ls[c].0 < indent || !is_item(ls[c].1) {
        (seq![], c)
    } else if ls[c].0 > indent {
        seq_items(ls, c + 1, indent)
    } else {
        let inline = item_inline(ls[c].1);
        let c1 = c + 1;
        let item: (Yaml, int) = if inline.len() == 0 {
            if c1 < ls.len() && ls[c1].0 > indent {
                let b = block_value(ls, c1, ls[c1].0);
                (b.0, clamp(b.1, c1, ls.len() as int))
            } else {
                (Yaml::Null, c1)
            }
        } else {
            match split_key(inline) {
                Some((key, rest)) => {
                    let e = entry_value(ls, c1, rest, indent + 2);
                    let m = cont_entries(
                        ls,
                        clamp(e.1, c1, ls.len() as int),
                        indent + 2,
                        map_insert(seq![], key, e.0),
                    );
                    (Yaml::Object(m.0), clamp(m.1, c1, ls.len() as int))
                },
                None => (scalar(inline), c1),
            }
        };
        let tail = seq_items(ls, item.1, indent);
        (seq![item.0] + tail.0, tail.1)
    }
}

/// Further `key: value` lines of a map that began on a `- key: value` item.
pub open spec fn cont_entries(
    ls: Seq<(int, Seq<char>)>,
    c: int,
    ci: int,
    m: Seq<(Seq<char>, Yaml)>,
) -> (Seq<(Seq<char>, Yaml)>, int)
    decreases ls.len() - c, 1nat,
{
    if c < 0 || c >= ls.len() || ls[c].0 < ci || dash_space(ls[c].1) {
        (m, c)
    } else {
        match split_key(ls[c].1) {
            Some((key, rest)) => {
                let e = entry_value(ls, c + 1, rest, ls[c].0);
                cont_entries(ls, clamp(e.1, c + 1, ls.len() as int), ci, map_insert(m, key, e.0))
            },
            None => (m, c),
        }
    }
}

/// Entries of a block map at `indent`, from line `c` on, added to `m`.
pub open spec fn map_entries(
    ls: Seq<(int, Seq<char>)>,
    c: int,
    indent: int,
    m: Seq<(Seq<char>, Yaml)>,
) -> (Seq<(Seq<char>, Yaml)>, int)
    decreases ls.len() - c, 1nat,
{
    if c < 0 || c >= ls.len() || ls[c].0 < indent {
        (m, c)
    } else if ls[c].0 > indent {
        map_entries(ls, c + 1, indent, m)
    } else {
        match split_key(ls[c].1) {
            Some((key, rest)) => {
                let e = entry_value(ls, c + 1, rest, indent);
                map_entries(ls, clamp(e.1, c + 1, ls.len() as int), indent, map_insert(m, key, e.0))
            },
            None => map_entries(ls, c + 1, indent, m),
        }
    }
}

/// The value of `key: rest` whose following line is `c`: the scalar `rest`,
/// or else the indented block (or same-indent sequence) that follows.
pub open spec fn entry_value(ls: Seq<(int, Seq<char>)>, c: int, rest: Seq<char>, indent: int) -> (
    Yaml,
    int,
)
    decreases ls.len() - c, 3nat,
{
    if rest.len() > 0 {
        (scalar(rest), c)
    } else if 0 <= c < ls.len() && ls[c].0 > indent {
        block_value(ls, c, ls[c].0)
    } else if 0 <= c < ls.len() && ls[c].0 == indent && ls[c].1.len() > 0 && ls[c].1[0] == '-' {
        let r = seq_items(ls, c, indent);
        (Yaml::Array(r.0), r.1)
    } else {
        (Yaml::Null, c)
    }
}

/// The map a frontmatter block holds; empty when it holds none.
pub open spec fn parse_spec(raw: Seq<char>) -> Seq<(Seq<char>, Yaml)> {
    let ls = collect_lines(raw);
    if ls.len() == 0 {
        seq![]
    } else {
        match block_value(ls, 0, ls[0].0).0 {
            Yaml::Object(m) => m,
            _ => seq![],
        }
    }
}

proof fn lemma_map_entries_sorted(ls: Seq<(int, Seq<char>)>, c: int, indent: int, m: Seq<(Seq<char>, Yaml)>)
    requires
        crate::yaml::keys_sorted(m),
    ensures
        crate::yaml::keys_sorted(map_entries(ls, c, indent, m).0),
    decreases ls.len() - c,
{
    if !(c < 0 || c >= ls.len() || ls[c].0 < indent) {
        if ls[c].0 > indent {
            lemma_map_entries_sorted(ls, c + 1, indent, m);
        } else {
            match split_key(ls[c].1) {
                Some((key, rest)) => {
                    let e = entry_value(ls, c + 1, rest, indent);
                    crate::yaml::lemma_map_insert_sorted(m, key, e.0);
                    lemma_map_entries_sorted(ls, clamp(e.1, c + 1, ls.len() as int), indent, map_insert(m, key, e.0));
                },
                None => {
                    lemma_map_entries_sorted(ls, c + 1, indent, m);
                },
            }
        }
    }
}

/// A parsed frontmatter map holds each key once, in increasing order.
pub proof fn lemma_parse_sorted(raw: Seq<char>)
    ensures
        crate::yaml::keys_sorted(parse_spec(raw)),
{
    let ls = collect_lines(raw);
    if ls.len() > 0 && !is_item(ls[0].1) {
        lemma_map_entries_sorted(ls, 0, ls[0].0, seq![]);
    }
}

// ---------------------------------------------------------------------------
// the reader
// ---------------------------------------------------------------------------

fn is_item_exec(t: &[char]) -> (r: bool)
    ensures
        r == is_item(t@),
{
    (t.len() >= 2 && t[0] == '-' && t[1] == ' ') || (t.len() == 1 && t[0] == '-')
}

fn dash_space_exec(t: &[char]) -> (r: bool)
    ensures
        r == dash_space(t@),
{
    t.len() >= 2 && t[0] == '-' && t[1] == ' '
}

fn block_exec(ls: &Vec<Line>, c: usize, indent: u128) -> (r: (Value, usize))
    requires
        c <= ls@.len(),
        indents_ok(lines_view(ls@)),
    ensures
        (r.0@, r.1 as int) == block_value(lines_view(ls@), c as int, indent as int),
        c <= r.1 <= ls@.len(),
    decreases ls@.len() - c, 2nat,
{
    let ghost lv = lines_view(ls@);
    if c >= ls.len() {
        return (Value::Null, c);
    }
    assert(lv[c as int] == (ls@[c as int].indent as int, ls@[c as int].text@));
    if is_item_exec(ls[c].text.as_slice()) {
        let (items, e) = seq_exec(ls, c, indent);
        (Value::Array(items), e)
    } else {
        let (m, e) = map_exec(ls, c, indent, Vec::new());
        proof {
            lemma_entries_view(Seq::<(String, Value)>::empty(), 0);
            assert(map_view(Seq::<(String, Value)>::empty()) =~= Seq::<(Seq<char>, Yaml)>::empty());
        }
        (Value::Object(m), e)
    }
}

fn seq_exec(ls: &Vec<Line>, c0: usize, indent: u128) -> (r: (Vec<Value>, usize))
    requires
        c0 <= ls@.len(),
        indents_ok(lines_view(ls@)),
    ensures
        views_of(r.0@, 0) == seq_items(lines_view(ls@), c0 as int, indent as int).0,
        r.1 == seq_items(lines_view(ls@), c0 as int, indent as int).1,
        c0 <= r.1 <= ls@.len(),
    decreases ls@.len() - c0, 1nat,
{
    let ghost lv = lines_view(ls@);
    let ghost total = seq_items(lv, c0 as int, indent as int);
    let mut items: Vec<Value> = Vec::new();
    let mut c = c0;
    proof {
        lemma_views_of_empty();
    }
    while c < ls.len() && ls[c].indent >= indent && is_item_exec(ls[c].text.as_slice())
        invariant
            c0 <= c <= ls@.len(),
            lv == lines_view(ls@),
            indents_ok(lv),
            total == seq_items(lv, c0 as int, indent as int),
            views_of(items@, 0) + seq_items(lv, c as int, indent as int).0 == total.0,
            seq_items(lv, c as int, indent as int).1 == total.1,
        decreases ls@.len() - c,
    {
        assert(lv[c as int] == (ls@[c as int].indent as int, ls@[c as int].text@));
        if ls[c].indent > indent {
            c += 1;
            continue;
        }
        let text = ls[c].text.as_slice();
        let inline = if dash_space_exec(text) {
            trim_vec(crate::text::slice_of(text, 2, text.len()).as_slice())
        } else {
            Vec::new()
        };
        assert(inline@ == item_inline(lv[c as int].1));
        let c1 = c + 1;
        let (v, next): (Value, usize) = if inline.len() == 0 {
            if c1 < ls.len() && ls[c1].indent > indent {
                assert(lv[c1 as int] == (ls@[c1 as int].indent as int, ls@[c1 as int].text@));
                block_exec(ls, c1, ls[c1].indent)
            } else {
                (Value::Null, c1)
            }
        } else {
            match split_key_exec(inline.as_slice()) {
                Some((key, rest)) => {
                    let ci = indent + 2;
                    let (ev, e1) = entry_exec(ls, c1, rest.as_slice(), ci);
                    let mut m: Entries = Vec::new();
                    proof {
                        lemma_entries_view(m@, 0);
                        assert(map_view(m@) =~= Seq::<(Seq<char>, Yaml)>::empty());
                    }
                    map_put(&mut m, crate::text::string_of(key.as_slice()), ev);
                    let (m2, e2) = cont_exec(ls, e1, ci, m);
                    (Value::Object(m2), e2)
                },
                None => (scalar_exec(inline.as_slice()), c1),
            }
        };
        let ghost before = items@;
        items.push(v);
        proof {
            lemma_views_push(before, v);
            assert(seq_items(lv, c as int, indent as int).0 =~= seq![view_of(v)] + seq_items(
                lv,
                next as int,
                indent as int,
            ).0);
            assert(views_of(items@, 0) + seq_items(lv, next as int, indent as int).0 =~= views_of(
                before,
                0,
            ) + seq_items(lv, c as int, indent as int).0);
        }
        c = next;
    }
    proof {
        if c < ls.len() {
            assert(lv[c as int] == (ls@[c as int].indent as int, ls@[c as int].text@));
        }
        assert(seq_items(lv, c as int, indent as int).0 =~= Seq::<Yaml>::empty());
        assert(views_of(items@, 0) + Seq::<Yaml>::empty() =~= views_of(items@, 0));
    }
    (items, c)
}

proof fn lemma_views_of_empty()
    ensures
        views_of(Seq::<Value>::empty(), 0) =~= Seq::<Yaml>::empty(),
{
}

fn cont_exec(ls: &Vec<Line>, c0: usize, ci: u128, m0: Entries) -> (r: (Entries, usize))
    requires
        c0 <= ls@.len(),
        indents_ok(lines_view(ls@)),
    ensures
        (map_view(r.0@), r.1 as int) == cont_entries(
            lines_view(ls@),
            c0 as int,
            ci as int,
            map_view(m0@),
        ),
        c0 <= r.1 <= ls@.len(),
    decreases ls@.len() - c0, 1nat,
{
    let ghost lv = lines_view(ls@);
    let ghost total = cont_entries(lv, c0 as int, ci as int, map_view(m0@));
    let mut m = m0;
    let mut c = c0;
    loop
        invariant
            c0 <= c <= ls@.len(),
            lv == lines_view(ls@),
            indents_ok(lv),
            cont_entries(lv, c as int, ci as int, map_view(m@)) == total,
        ensures
            c0 <= c <= ls@.len(),
            total == (map_view(m@), c as int),
        decreases ls@.len() - c,
    {
        proof {
            if c < ls.len() {
                assert(lv[c as int] == (ls@[c as int].indent as int, ls@[c as int].text@));
            }
        }
        if c >= ls.len() || ls[c].indent < ci || dash_space_exec(ls[c].text.as_slice()) {
            break;
        }
        match split_key_exec(ls[c].text.as_slice()) {
            Some((key, rest)) => {
                let (ev, e1) = entry_exec(ls, c + 1, rest.as_slice(), ls[c].indent);
                map_put(&mut m, crate::text::string_of(key.as_slice()), ev);
                c = e1;
            },
            None => {
                break;
            },
        }
    }
    (m, c)
}

fn map_exec(ls: &Vec<Line>, c0: usize, indent: u128, m0: Entries) -> (r: (Entries, usize))
    requires
        c0 <= ls@.len(),
        indents_ok(lines_view(ls@)),
    ensures
        (map_view(r.0@), r.1 as int) == map_entries(
            lines_view(ls@),
            c0 as int,
            indent as int,
            map_view(m0@),
        ),
        c0 <= r.1 <= ls@.len(),
    decreases ls@.len() - c0, 1nat,
{
    let ghost lv = lines_view(ls@);
    let ghost total = map_entries(lv, c0 as int, indent as int, map_view(m0@));
    let mut m = m0;
    let mut c = c0;
    while c < ls.len() && ls[c].indent >= indent
        invariant
            c0 <= c <= ls@.len(),
            lv == lines_view(ls@),
            indents_ok(lv),
            map_entries(lv, c as int, indent as int, map_view(m@)) == total,
        decreases ls@.len() - c,
    {
        assert(lv[c as int] == (ls@[c as int].indent as int, ls@[c as int].text@));
        if ls[c].indent > indent {
            c += 1;
            continue;
        }
        match split_key_exec(ls[c].text.as_slice()) {
            Some((key, rest)) => {
                let (ev, e1) = entry_exec(ls, c + 1, rest.as_slice(), indent);
                map_put(&mut m, crate::text::string_of(key.as_slice()), ev);
                c = e1;
            },
            None => {
                c += 1;
            },
        }
    }
    proof {
        if c < ls.len() {
            assert(lv[c as int] == (ls@[c as int].indent as int, ls@[c as int].text@));
        }
    }
    (m, c)
}

fn entry_exec(ls: &Vec<Line>, c: usize, rest: &[char], indent: u128) -> (r: (Value, usize))
    requires
        c <= ls@.len(),
        indents_ok(lines_view(ls@)),
        indent <= 0x10000000000000000002,
    ensures
        (r.0@, r.1 as int) == entry_value(lines_view(ls@), c as int, rest@, indent as int),
        c <= r.1 <= ls@.len(),
    decreases ls@.len() - c, 3nat,
{
    let ghost lv = lines_view(ls@);
    if rest.len() > 0 {
        return (scalar_exec(rest), c);
    }
    if c < ls.len() {
        assert(lv[c as int] == (ls@[c as int].indent as int, ls@[c as int].text@));
        if ls[c].indent > indent {
            return block_exec(ls, c, ls[c].indent);
        }
        if ls[c].indent == indent && ls[c].text.len() > 0 && ls[c].text[0] == '-' {
            let (items, e) = seq_exec(ls, c, indent);
            return (Value::Array(items), e);
        }
    }
    (Value::Null, c)
}

/// Parse a raw frontmatter block into a map.
///
/// Returns an empty map for input that contains no usable keys, so callers can
/// treat "no frontmatter" and "empty frontmatter" identically.
pub fn parse(raw: &str) -> (r: Entries)
    ensures
        map_view(r@) == parse_spec(raw@),
        crate::yaml::keys_sorted(map_view(r@)),
{
    proof {
        lemma_parse_sorted(raw@);
    }
    let chars = chars_of(raw);
    let ls = collect_lines_exec(chars.as_slice());
    if ls.len() == 0 {
        proof {
            lemma_entries_view(Seq::<(String, Value)>::empty(), 0);
        }
        return Vec::new();
    }
    assert(lines_view(ls@)[0] == (ls@[0].indent as int, ls@[0].text@));
    let (v, _) = block_exec(&ls, 0, ls[0].indent);
    match v {
        Value::Object(m) => m,
        _ => {
            proof {
                lemma_entries_view(Seq::<(String, Value)>::empty(), 0);
            }
            Vec::new()
        },
    }
}

// ---------------------------------------------------------------------------
// the writer
// ---------------------------------------------------------------------------

pub open spec fn digit_char(d: int) -> char {
    if d == 0 { '0' } else if d == 1 { '1' } else if d == 2 { '2' } else if d == 3 { '3' }
    else if d == 4 { '4' } else if d == 5 { '5' } else if d == 6 { '6' } else if d == 7 { '7' }
    else if d == 8 { '8' } else { '9' }
}

/// Decimal digits of a natural number.
pub open spec fn nat_text(n: nat) -> Seq<char>
    decreases n,
{
    if n < 10 {
        seq![digit_char(n as int)]
    } else {
        nat_text(n / 10).push(digit_char((n % 10) as int))
    }
}

/// Decimal text of an integer, `-` first when it is negative.
pub open spec fn int_text(i: int) -> Seq<char> {
    if i < 0 {
        seq!['-'] + nat_text((-i) as nat)
    } else {
        nat_text(i as nat)
    }
}

/// A character that changes a bare value's meaning when it comes first.
pub open spec fn special_start(c: char) -> bool {
    c == '-' || c == '[' || c == '{' || c == '&' || c == '*' || c == '!' || c == '|' || c == '>'
        || c == '%' || c == '@' || c == '`' || c == '"' || c == '\''
}

/// A string must be quoted when, written bare, it would read back as
/// something else.
pub open spec fn needs_quotes(t: Seq<char>) -> bool {
    ||| t.len() == 0
    ||| t == seq!['~']
    ||| trim(t) != t
    ||| special_start(t[0])
    ||| contains_seq(t, seq![':', ' '])
    ||| t.last() == ':'
    ||| contains_seq(t, seq![' ', '#'])
    ||| contains_seq(t, seq!['\n'])
    ||| eq_ignore_case(t, word_true())
    ||| eq_ignore_case(t, word_false())
    ||| eq_ignore_case(t, word_null())
    ||| float_literal(t)
}

pub open spec fn escaped(t: Seq<char>) -> Seq<char> {
    replace(
        replace(replace(t, seq!['\\'], seq!['\\', '\\']), seq!['"'], seq!['\\', '"']),
        seq!['\n'],
        seq!['\\', 'n'],
    )
}

/// A string value as written: bare where that reads back the same, else in
/// double quotes with `\\`, `"` and newlines escaped.
pub open spec fn quote_scalar(t: Seq<char>) -> Seq<char> {
    if needs_quotes(t) {
        seq!['"'] + escaped(t) + seq!['"']
    } else {
        t
    }
}

// ---------------------------------------------------------------------------
// reading a written string back
// ---------------------------------------------------------------------------

proof fn lemma_replace_shift(a: Seq<char>, b: Seq<char>, pat: Seq<char>, rep: Seq<char>, j: int)
    requires
        0 <= j <= b.len(),
        pat.len() > 0,
    ensures
        crate::yaml::replace_from(a + b, pat, rep, a.len() + j) == crate::yaml::replace_from(b, pat, rep, j),
    decreases b.len() - j,
{
    let s = a + b;
    if j < b.len() {
        assert(s[a.len() + j] == b[j]);
        if occurs_at(b, pat, j) {
            assert(s.subrange(a.len() + j, a.len() + j + pat.len()) =~= b.subrange(j, j + pat.len()));
            lemma_replace_shift(a, b, pat, rep, j + pat.len());
        } else {
            if occurs_at(s, pat, a.len() + j) {
                assert(s.subrange(a.len() + j, a.len() + j + pat.len()) =~= b.subrange(j, j + pat.len()));
            }
            lemma_replace_shift(a, b, pat, rep, j + 1);
        }
    } else {
        assert(s.subrange(s.len() as int, s.len() as int) =~= b.subrange(b.len() as int, b.len() as int));
    }
}

/// With no occurrence of the pattern, replacing changes nothing.
proof fn lemma_replace_none(s: Seq<char>, pat: Seq<char>, rep: Seq<char>, i: int)
    requires
        0 <= i <= s.len(),
        forall|k: int| i <= k ==> !#[trigger] occurs_at(s, pat, k),
    ensures
        crate::yaml::replace_from(s, pat, rep, i) == s.subrange(i, s.len() as int),
    decreases s.len() - i,
{
    if i < s.len() && pat.len() > 0 {
        lemma_replace_none(s, pat, rep, i + 1);
        assert(seq![s[i]] + s.subrange(i + 1, s.len() as int) =~= s.subrange(i, s.len() as int));
    }
}

pub open spec fn backslash() -> Seq<char> {
    seq!['\\']
}

pub open spec fn two_backslashes() -> Seq<char> {
    seq!['\\', '\\']
}

/// Doubling backslashes and then halving them gives back the text.
proof fn lemma_backslashes_undo(t: Seq<char>)
    ensures
        crate::yaml::replace_from(
            crate::yaml::replace_from(t, backslash(), two_backslashes(), 0),
            two_backslashes(),
            backslash(),
            0,
        ) == t,
    decreases t.len(),
{
    let d = crate::yaml::replace_from(t, backslash(), two_backslashes(), 0);
    if t.len() == 0 {
        assert(d =~= Seq::<char>::empty());
        assert(crate::yaml::replace_from(d, two_backslashes(), backslash(), 0) =~= Seq::<char>::empty());
    } else {
        let rest = t.drop_first();
        assert(t =~= seq![t[0]] + rest);
        lemma_replace_shift(seq![t[0]], rest, backslash(), two_backslashes(), 0);
        let dr = crate::yaml::replace_from(rest, backslash(), two_backslashes(), 0);
        lemma_backslashes_undo(rest);
        if t[0] == '\\' {
            assert(t.subrange(0, 1) =~= backslash());
            assert(d == two_backslashes() + dr);
            let x = two_backslashes() + dr;
            assert(x.subrange(0, 2) =~= two_backslashes());
            lemma_replace_shift(two_backslashes(), dr, two_backslashes(), backslash(), 0);
            assert(crate::yaml::replace_from(x, two_backslashes(), backslash(), 0) == backslash() + rest);
            assert(backslash() + rest =~= t);
        } else {
            assert(!occurs_at(t, backslash(), 0)) by {
                if occurs_at(t, backslash(), 0) {
                    assert(t.subrange(0, 1)[0] == t[0]);
                }
            }
            assert(d == seq![t[0]] + dr);
            let x = seq![t[0]] + dr;
            assert(!occurs_at(x, two_backslashes(), 0)) by {
                if occurs_at(x, two_backslashes(), 0) {
                    assert(x.subrange(0, 2)[0] == x[0]);
                }
            }
            lemma_replace_shift(seq![t[0]], dr, two_backslashes(), backslash(), 0);
            assert(crate::yaml::replace_from(x, two_backslashes(), backslash(), 0) == seq![t[0]] + rest);
        }
    }
}

proof fn lemma_replace_keeps_out(s: Seq<char>, pat: Seq<char>, rep: Seq<char>, c: char, i: int)
    requires
        0 <= i,
        forall|k: int| 0 <= k < s.len() ==> #[trigger] s[k] != c,
        forall|k: int| 0 <= k < rep.len() ==> #[trigger] rep[k] != c,
    ensures
        forall|k: int|
            0 <= k < crate::yaml::replace_from(s, pat, rep, i).len() ==> #[trigger] crate::yaml::replace_from(
                s,
                pat,
                rep,
                i,
            )[k] != c,
    decreases s.len() - i,
{
    let r = crate::yaml::replace_from(s, pat, rep, i);
    if i < s.len() && pat.len() > 0 {
        if occurs_at(s, pat, i) {
            lemma_replace_keeps_out(s, pat, rep, c, i + pat.len());
            let rest = crate::yaml::replace_from(s, pat, rep, i + pat.len());
            assert forall|k: int| 0 <= k < r.len() implies #[trigger] r[k] != c by {
                if k < rep.len() {
                    assert(r[k] == rep[k]);
                } else {
                    assert(r[k] == rest[k - rep.len()]);
                }
            }
        } else {
            lemma_replace_keeps_out(s, pat, rep, c, i + 1);
            let rest = crate::yaml::replace_from(s, pat, rep, i + 1);
            assert forall|k: int| 0 <= k < r.len() implies #[trigger] r[k] != c by {
                if k > 0 {
                    assert(r[k] == rest[k - 1]);
                }
            }
        }
    } else if 0 <= i <= s.len() {
        assert forall|k: int| 0 <= k < r.len() implies #[trigger] r[k] != c by {
            assert(r[k] == s[i + k]);
        }
    }
}

proof fn lemma_comment_free(t: Seq<char>, i: int, q: Option<char>)
    requires
        0 <= i,
        !contains_seq(t, seq![' ', '#']),
    ensures
        comment_at(t, i, q) == t.len(),
    decreases t.len() - i,
{
    if i < t.len() {
        match q {
            Some(qc) => if t[i] == qc {
                lemma_comment_free(t, i + 1, None);
            } else {
                lemma_comment_free(t, i + 1, q);
            },
            None => if is_quote(t[i]) {
                lemma_comment_free(t, i + 1, Some(t[i]));
            } else if t[i] == '#' && i > 0 && t[i - 1] == ' ' {
                assert(t.subrange(i - 1, i + 1) =~= seq![' ', '#']);
                assert(occurs_at(t, seq![' ', '#'], i - 1));
            } else {
                lemma_comment_free(t, i + 1, None);
            },
        }
    }
}

proof fn lemma_digits_run_all(t: Seq<char>, i: int)
    requires
        0 <= i <= t.len(),
        forall|k: int| i <= k < t.len() ==> crate::text::is_ascii_digit(#[trigger] t[k]),
    ensures
        crate::numbers::digit_run(t, i) == t.len() - i,
    decreases t.len() - i,
{
    if i < t.len() {
        lemma_digits_run_all(t, i + 1);
    }
}

/// An integer literal is also a float literal.
proof fn lemma_int_is_float(t: Seq<char>)
    requires
        crate::yaml::parse_i64(t) is Some,
    ensures
        float_literal(t),
{
    let s = crate::numbers::sign_len(t);
    let d = crate::yaml::int_digits(t);
    assert(d == t.subrange(s, t.len() as int));
    assert forall|k: int| s <= k < t.len() implies crate::text::is_ascii_digit(#[trigger] t[k]) by {
        assert(t[k] == d[k - s]);
    }
    lemma_digits_run_all(t, s);
    assert(crate::numbers::is_decimal(t));
}

proof fn lemma_trim_fixed(t: Seq<char>)
    requires
        trim(t) == t,
    ensures
        trim_end(t) == t,
{
    crate::text::lemma_skip_ws_bounds(t, 0);
    let ts = crate::text::trim_start(t);
    crate::text::lemma_back_ws_bounds(ts, ts.len() as int);
    assert(trim(t).len() <= ts.len());
    assert(skip_ws(t, 0) == 0);
    assert(ts =~= t);
}

pub open spec fn dquote() -> Seq<char> {
    seq!['"']
}

pub open spec fn escaped_dquote() -> Seq<char> {
    seq!['\\', '"']
}

proof fn lemma_quote_escape_head(x: Seq<char>)
    requires
        x.len() > 0,
    ensures
        crate::yaml::replace_from(x, dquote(), escaped_dquote(), 0).len() > 0,
        crate::yaml::replace_from(x, dquote(), escaped_dquote(), 0)[0] != '"',
{
    if x[0] == '"' {
        assert(x.subrange(0, 1) =~= dquote());
    } else {
        if occurs_at(x, dquote(), 0) {
            assert(x.subrange(0, 1)[0] == x[0]);
        }
    }
}

/// Escaping double quotes and then unescaping them gives back the text.
proof fn lemma_quotes_undo(x: Seq<char>)
    ensures
        crate::yaml::replace_from(
            crate::yaml::replace_from(x, dquote(), escaped_dquote(), 0),
            escaped_dquote(),
            dquote(),
            0,
        ) == x,
    decreases x.len(),
{
    let q = crate::yaml::replace_from(x, dquote(), escaped_dquote(), 0);
    if x.len() == 0 {
        assert(q =~= Seq::<char>::empty());
        assert(crate::yaml::replace_from(q, escaped_dquote(), dquote(), 0) =~= Seq::<char>::empty());
    } else {
        let rest = x.drop_first();
        assert(x =~= seq![x[0]] + rest);
        lemma_replace_shift(seq![x[0]], rest, dquote(), escaped_dquote(), 0);
        let qr = crate::yaml::replace_from(rest, dquote(), escaped_dquote(), 0);
        lemma_quotes_undo(rest);
        if x[0] == '"' {
            assert(x.subrange(0, 1) =~= dquote());
            assert(q == escaped_dquote() + qr);
            let y = escaped_dquote() + qr;
            assert(y.subrange(0, 2) =~= escaped_dquote());
            lemma_replace_shift(escaped_dquote(), qr, escaped_dquote(), dquote(), 0);
            assert(dquote() + rest =~= x);
        } else {
            assert(!occurs_at(x, dquote(), 0)) by {
                if occurs_at(x, dquote(), 0) {
                    assert(x.subrange(0, 1)[0] == x[0]);
                }
            }
            assert(q == seq![x[0]] + qr);
            let y = seq![x[0]] + qr;
            if rest.len() > 0 {
                lemma_quote_escape_head(rest);
            }
            assert(!occurs_at(y, escaped_dquote(), 0)) by {
                if occurs_at(y, escaped_dquote(), 0) {
                    assert(y.subrange(0, 2)[1] == y[1]);
                    assert(y[1] == qr[0]);
                }
            }
            lemma_replace_shift(seq![x[0]], qr, escaped_dquote(), dquote(), 0);
        }
    }
}

/// A string written as a frontmatter value reads back as that string,
/// provided it holds no line break and, where it is written quoted, nothing
/// in the quoted text reads as a ` #` comment (which happens when a ` #`
/// follows an escaped quote, since comments are found without regard to
/// escapes).
pub proof fn lemma_quote_scalar_reads_back(t: Seq<char>)
    requires
        !t.contains('\n'),
        needs_quotes(t) ==> crate::yaml::strip_comment(quote_scalar(t)) == quote_scalar(t),
    ensures
        scalar(quote_scalar(t)) == Yaml::Str(t),
{
    if !needs_quotes(t) {
        lemma_comment_free(t, 0, None);
        lemma_trim_fixed(t);
        assert(t.subrange(0, t.len() as int) =~= t);
        assert(crate::yaml::strip_comment(t) == t);
        if crate::yaml::parse_i64(t) is Some {
            lemma_int_is_float(t);
        }
        assert(!is_quote(t[0]));
    } else {
        let a = crate::yaml::replace_from(t, backslash(), two_backslashes(), 0);
        let e = crate::yaml::replace_from(a, dquote(), escaped_dquote(), 0);
        assert forall|k: int| 0 <= k < t.len() implies #[trigger] t[k] != '\n' by {
            if t[k] == '\n' {
                assert(t.contains(t[k]));
            }
        }
        lemma_replace_keeps_out(t, backslash(), two_backslashes(), '\n', 0);
        lemma_replace_keeps_out(a, dquote(), escaped_dquote(), '\n', 0);
        let pn = seq!['\n'];
        assert forall|k: int| 0 <= k implies !#[trigger] occurs_at(e, pn, k) by {
            if occurs_at(e, pn, k) {
                assert(e.subrange(k, k + 1)[0] == e[k]);
            }
        }
        lemma_replace_none(e, seq!['\n'], seq!['\\', 'n'], 0);
        assert(e.subrange(0, e.len() as int) =~= e);
        assert(escaped(t) == e);
        let text = seq!['"'] + e + seq!['"'];
        assert(quote_scalar(t) == text);
        assert(text != crate::yaml::tilde());
        assert(!eq_ignore_case(text, word_null())) by {
            if eq_ignore_case(text, word_null()) {
                assert(crate::yaml::ascii_lower(text[0]) == word_null()[0]);
            }
        }
        assert(text.subrange(1, text.len() - 1) =~= e);
        lemma_quotes_undo(a);
        lemma_backslashes_undo(t);
    }
}

pub open spec fn key_needs_quotes(k: Seq<char>) -> bool {
    k.len() == 0 || exists|i: int|
        0 <= i < k.len() && (#[trigger] k[i] == ':' || k[i] == ' ' || k[i] == '#' || k[i] == '"'
            || k[i] == '\'')
}

/// A key as written: bare, or in double quotes with `"` escaped when it holds
/// a character that would end or confuse it.
pub open spec fn quote_key(k: Seq<char>) -> Seq<char> {
    if key_needs_quotes(k) {
        seq!['"'] + replace(k, seq!['"'], seq!['\\', '"']) + seq!['"']
    } else {
        k
    }
}

/// The text of a value that stands after `key: ` or `- `.
pub open spec fn scalar_text(v: Yaml) -> Seq<char> {
    match v {
        Yaml::Null => seq![],
        Yaml::Bool(b) => if b {
            word_true()
        } else {
            word_false()
        },
        Yaml::Int(i) => int_text(i),
        Yaml::Float(t) => t,
        Yaml::Str(t) => quote_scalar(t),
        Yaml::Array(_) => seq!['[', ']'],
        Yaml::Object(_) => seq!['{', '}'],
    }
}

pub open spec fn deeper(pad: Seq<char>) -> Seq<char> {
    pad + seq![' ', ' ']
}

/// `key: value` at indentation `pad`, nested collections on the lines below.
pub open spec fn entry_text(key: Seq<char>, v: Yaml, pad: Seq<char>) -> Seq<char>
    decreases v, 1nat, 0int,
{
    match v {
        Yaml::Array(items) => if items.len() > 0 {
            pad + quote_key(key) + seq![':', '\n'] + items_text(items, 0, deeper(pad))
        } else {
            pad + quote_key(key) + seq![':', ' '] + scalar_text(v) + seq!['\n']
        },
        Yaml::Object(m) => if m.len() > 0 {
            pad + quote_key(key) + seq![':', '\n'] + entries_text(m, 0, deeper(pad))
        } else {
            pad + quote_key(key) + seq![':', ' '] + scalar_text(v) + seq!['\n']
        },
        _ => pad + quote_key(key) + seq![':', ' '] + scalar_text(v) + seq!['\n'],
    }
}

/// The entries `k..` of a map, one after another.
pub open spec fn entries_text(m: Seq<(Seq<char>, Yaml)>, k: int, pad: Seq<char>) -> Seq<char>
    decreases m, 0nat, m.len() - k,
{
    if 0 <= k < m.len() {
        entry_text(m[k].0, m[k].1, pad) + entries_text(m, k + 1, pad)
    } else {
        seq![]
    }
}

/// A `- item` at indentation `pad`. A map item puts its first entry on the
/// dash line (or below a bare `-` when that entry is a collection).
pub open spec fn item_text(v: Yaml, pad: Seq<char>) -> Seq<char>
    decreases v, 1nat, 0int,
{
    match v {
        Yaml::Object(m) => if m.len() > 0 {
            let first = if m[0].1 is Array || m[0].1 is Object {
                pad + seq!['-', '\n'] + entry_text(m[0].0, m[0].1, deeper(pad))
            } else {
                pad + seq!['-', ' '] + quote_key(m[0].0) + seq![':', ' '] + scalar_text(m[0].1)
                    + seq!['\n']
            };
            first + entries_text(m, 1, deeper(pad))
        } else {
            pad + seq!['-', ' '] + scalar_text(v) + seq!['\n']
        },
        Yaml::Array(items) => if items.len() > 0 {
            pad + seq!['-', '\n'] + items_text(items, 0, deeper(pad))
        } else {
            pad + seq!['-', ' '] + scalar_text(v) + seq!['\n']
        },
        _ => pad + seq!['-', ' '] + scalar_text(v) + seq!['\n'],
    }
}

/// The items `k..` of a sequence, one after another.
pub open spec fn items_text(s: Seq<Yaml>, k: int, pad: Seq<char>) -> Seq<char>
    decreases s, 0nat, s.len() - k,
{
    if 0 <= k < s.len() {
        item_text(s[k], pad) + items_text(s, k + 1, pad)
    } else {
        seq![]
    }
}

/// A whole map written out, without fences.
pub open spec fn yaml_text(m: Seq<(Seq<char>, Yaml)>) -> Seq<char> {
    entries_text(m, 0, seq![])
}

fn emit(out: &mut Vec<char>, s: &[char])
    ensures
        final(out)@ == old(out)@ + s@,
{
    let ghost start = out@;
    let mut i: usize = 0;
    while i < s.len()
        invariant
            i <= s@.len(),
            out@ == start + s@.subrange(0, i as int),
        decreases s@.len() - i,
    {
        out.push(s[i]);
        assert(start + s@.subrange(0, i + 1) =~= (start + s@.subrange(0, i as int)).push(s@[i as int]));
        i += 1;
    }
    assert(s@.subrange(0, i as int) =~= s@);
}

fn digit_exec(d: u64) -> (c: char)
    requires
        d < 10,
    ensures
        c == digit_char(d as int),
{
    if d == 0 { '0' } else if d == 1 { '1' } else if d == 2 { '2' } else if d == 3 { '3' }
    else if d == 4 { '4' } else if d == 5 { '5' } else if d == 6 { '6' } else if d == 7 { '7' }
    else if d == 8 { '8' } else { '9' }
}

pub(crate) fn emit_nat(out: &mut Vec<char>, n: u64)
    ensures
        final(out)@ == old(out)@ + nat_text(n as nat),
    decreases n,
{
    if n < 10 {
        out.push(digit_exec(n));
    } else {
        emit_nat(out, n / 10);
        out.push(digit_exec(n % 10));
    }
}

/// Decimal text of an `i64`.
pub fn int_chars(i: i64) -> (r: Vec<char>)
    ensures
        r@ == int_text(i as int),
{
    let mut out: Vec<char> = Vec::new();
    if i < 0 {
        out.push('-');
        let m: u64 = if i == i64::MIN {
            0x8000000000000000
        } else {
            (-i) as u64
        };
        emit_nat(&mut out, m);
    } else {
        emit_nat(&mut out, i as u64);
    }
    out
}

fn special_start_exec(c: char) -> (r: bool)
    ensures
        r == special_start(c),
{
    c == '-' || c == '[' || c == '{' || c == '&' || c == '*' || c == '!' || c == '|' || c == '>'
        || c == '%' || c == '@' || c == '`' || c == '"' || c == '\''
}

fn needs_quotes_exec(t: &[char]) -> (r: bool)
    ensures
        r == needs_quotes(t@),
{
    if t.len() == 0 {
        return true;
    }
    let tt = trim_vec(t);
    assert([':', ' ']@ =~= seq![':', ' ']);
    assert([' ', '#']@ =~= seq![' ', '#']);
    assert(['\n']@ =~= seq!['\n']);
    assert(['t', 'r', 'u', 'e']@ =~= word_true());
    assert(['f', 'a', 'l', 's', 'e']@ =~= word_false());
    assert(['n', 'u', 'l', 'l']@ =~= word_null());
    proof {
        if t@.len() == 1 && t@[0] == '~' {
            assert(t@ =~= seq!['~']);
        }
    }
    (t.len() == 1 && t[0] == '~') || !vec_eq(tt.as_slice(), t) || special_start_exec(t[0]) || contains(t, &[':', ' '])
        || t[t.len() - 1] == ':' || contains(t, &[' ', '#']) || contains(t, &['\n'])
        || eq_ignore_case_exec(t, &['t', 'r', 'u', 'e'])
        || eq_ignore_case_exec(t, &['f', 'a', 'l', 's', 'e'])
        || eq_ignore_case_exec(t, &['n', 'u', 'l', 'l']) || float_literal_exec(t)
}

fn quote_scalar_exec(t: &[char]) -> (r: Vec<char>)
    ensures
        r@ == quote_scalar(t@),
{
    if needs_quotes_exec(t) {
        assert(['\\']@ =~= seq!['\\']);
        assert(['\\', '\\']@ =~= seq!['\\', '\\']);
        assert(['"']@ =~= seq!['"']);
        assert(['\\', '"']@ =~= seq!['\\', '"']);
        assert(['\n']@ =~= seq!['\n']);
        assert(['\\', 'n']@ =~= seq!['\\', 'n']);
        let a = replace_exec(t, &['\\'], &['\\', '\\']);
        let b = replace_exec(a.as_slice(), &['"'], &['\\', '"']);
        let c = replace_exec(b.as_slice(), &['\n'], &['\\', 'n']);
        let mut out: Vec<char> = Vec::new();
        out.push('"');
        emit(&mut out, c.as_slice());
        out.push('"');
        assert(out@ =~= seq!['"'] + escaped(t@) + seq!['"']);
        out
    } else {
        crate::text::slice_of(t, 0, t.len())
    }
}

fn quote_key_exec(k: &[char]) -> (r: Vec<char>)
    ensures
        r@ == quote_key(k@),
{
    let mut found = false;
    let mut i: usize = 0;
    while i < k.len()
        invariant
            i <= k@.len(),
            found == exists|j: int|
                0 <= j < i && (#[trigger] k@[j] == ':' || k@[j] == ' ' || k@[j] == '#' || k@[j]
                    == '"' || k@[j] == '\''),
        decreases k@.len() - i,
    {
        let c = k[i];
        if c == ':' || c == ' ' || c == '#' || c == '"' || c == '\'' {
            found = true;
        }
        i += 1;
    }
    if k.len() == 0 || found {
        assert(['"']@ =~= seq!['"']);
        assert(['\\', '"']@ =~= seq!['\\', '"']);
        let e = replace_exec(k, &['"'], &['\\', '"']);
        let mut out: Vec<char> = Vec::new();
        out.push('"');
        emit(&mut out, e.as_slice());
        out.push('"');
        assert(out@ =~= seq!['"'] + e@ + seq!['"']);
        out
    } else {
        crate::text::slice_of(k, 0, k.len())
    }
}

fn scalar_text_exec(v: &Value) -> (r: Vec<char>)
    ensures
        r@ == scalar_text(v@),
{
    match v {
        Value::Null => Vec::new(),
        Value::Bool(b) => {
            if *b {
                let r = vec!['t', 'r', 'u', 'e'];
                assert(r@ =~= word_true());
                r
            } else {
                let r = vec!['f', 'a', 'l', 's', 'e'];
                assert(r@ =~= word_false());
                r
            }
        },
        Value::Int(i) => int_chars(*i),
        Value::Float(t) => chars_of(t.as_str()),
        Value::String(t) => {
            let c = chars_of(t.as_str());
            quote_scalar_exec(c.as_slice())
        },
        Value::Array(_) => {
            let r = vec!['[', ']'];
            assert(r@ =~= seq!['[', ']']);
            r
        },
        Value::Object(_) => {
            let r = vec!['{', '}'];
            assert(r@ =~= seq!['{', '}']);
            r
        },
    }
}

fn is_collection(v: &Value) -> (r: bool)
    ensures
        r == (v@ is Array || v@ is Object),
{
    match v {
        Value::Array(_) => true,
        Value::Object(_) => true,
        _ => false,
    }
}

fn write_entry(out: &mut Vec<char>, key: &[char], v: &Value, pad: &[char])
    ensures
        final(out)@ == old(out)@ + entry_text(key@, v@, pad@),
    decreases v, 1nat, 0int,
{
    let ghost start = out@;
    let qk = quote_key_exec(key);
    let mut deep = crate::text::slice_of(pad, 0, pad.len());
    deep.push(' ');
    deep.push(' ');
    assert(deep@ =~= deeper(pad@));
    match v {
        Value::Array(items) => {
            if items.len() > 0 {
                emit(out, pad);
                emit(out, qk.as_slice());
                emit(out, &[':', '\n']);
                write_items(out, items, 0, deep.as_slice());
                assert(out@ =~= start + entry_text(key@, v@, pad@));
                return;
            }
        },
        Value::Object(m) => {
            if m.len() > 0 {
                emit(out, pad);
                emit(out, qk.as_slice());
                emit(out, &[':', '\n']);
                write_entries(out, m, 0, deep.as_slice());
                assert(out@ =~= start + entry_text(key@, v@, pad@));
                return;
            }
        },
        _ => {},
    }
    let st = scalar_text_exec(v);
    emit(out, pad);
    emit(out, qk.as_slice());
    emit(out, &[':', ' ']);
    emit(out, st.as_slice());
    out.push('\n');
    assert(out@ =~= start + entry_text(key@, v@, pad@));
}

fn write_entries(out: &mut Vec<char>, m: &Vec<(String, Value)>, k0: usize, pad: &[char])
    requires
        k0 <= m@.len(),
    ensures
        final(out)@ == old(out)@ + entries_text(map_view(m@), k0 as int, pad@),
    decreases m@, 0nat, m@.len() - k0,
{
    let ghost start = out@;
    let ghost mv = map_view(m@);
    proof {
        crate::yaml::lemma_entries_view(m@, 0);
    }
    let mut k = k0;
    while k < m.len()
        invariant
            k0 <= k <= m@.len(),
            mv == map_view(m@),
            mv.len() == m@.len(),
            forall|i: int| 0 <= i < mv.len() ==> #[trigger] mv[i] == (m@[i].0@, view_of(m@[i].1)),
            start + entries_text(mv, k0 as int, pad@) == out@ + entries_text(mv, k as int, pad@),
        decreases m@.len() - k,
    {
        let key = chars_of(m[k].0.as_str());
        let ghost before = out@;
        assert(mv[k as int] == (m@[k as int].0@, view_of(m@[k as int].1)));
        write_entry(out, key.as_slice(), &m[k].1, pad);
        assert(before + entries_text(mv, k as int, pad@) =~= out@ + entries_text(mv, k + 1, pad@));
        k += 1;
    }
    assert(out@ + entries_text(mv, k as int, pad@) =~= out@);
}

fn write_item(out: &mut Vec<char>, v: &Value, pad: &[char])
    ensures
        final(out)@ == old(out)@ + item_text(v@, pad@),
    decreases v, 1nat, 0int,
{
    let ghost start = out@;
    let mut deep = crate::text::slice_of(pad, 0, pad.len());
    deep.push(' ');
    deep.push(' ');
    assert(deep@ =~= deeper(pad@));
    match v {
        Value::Object(m) => {
            if m.len() > 0 {
                proof {
                    crate::yaml::lemma_entries_view(m@, 0);
                }
                let ghost mv = map_view(m@);
                assert(mv[0] == (m@[0].0@, view_of(m@[0].1)));
                let key = chars_of(m[0].0.as_str());
                if is_collection(&m[0].1) {
                    emit(out, pad);
                    emit(out, &['-', '\n']);
                    write_entry(out, key.as_slice(), &m[0].1, deep.as_slice());
                } else {
                    let qk = quote_key_exec(key.as_slice());
                    let st = scalar_text_exec(&m[0].1);
                    emit(out, pad);
                    emit(out, &['-', ' ']);
                    emit(out, qk.as_slice());
                    emit(out, &[':', ' ']);
                    emit(out, st.as_slice());
                    out.push('\n');
                }
                write_entries(out, m, 1, deep.as_slice());
                assert(out@ =~= start + item_text(v@, pad@));
                return;
            }
        },
        Value::Array(items) => {
            if items.len() > 0 {
                emit(out, pad);
                emit(out, &['-', '\n']);
                write_items(out, items, 0, deep.as_slice());
                assert(out@ =~= start + item_text(v@, pad@));
                return;
            }
        },
        _ => {},
    }
    let st = scalar_text_exec(v);
    emit(out, pad);
    emit(out, &['-', ' ']);
    emit(out, st.as_slice());
    out.push('\n');
    assert(out@ =~= start + item_text(v@, pad@));
}

fn write_items(out: &mut Vec<char>, s: &Vec<Value>, k0: usize, pad: &[char])
    requires
        k0 <= s@.len(),
    ensures
        final(out)@ == old(out)@ + items_text(views_of(s@, 0), k0 as int, pad@),
    decreases s@, 0nat, s@.len() - k0,
{
    let ghost start = out@;
    let ghost sv = views_of(s@, 0);
    proof {
        crate::yaml::lemma_views_of(s@, 0);
    }
    let mut k = k0;
    while k < s.len()
        invariant
            k0 <= k <= s@.len(),
            sv == views_of(s@, 0),
            sv.len() == s@.len(),
            forall|i: int| 0 <= i < sv.len() ==> #[trigger] sv[i] == view_of(s@[i]),
            start + items_text(sv, k0 as int, pad@) == out@ + items_text(sv, k as int, pad@),
        decreases s@.len() - k,
    {
        let ghost before = out@;
        assert(sv[k as int] == view_of(s@[k as int]));
        write_item(out, &s[k], pad);
        assert(before + items_text(sv, k as int, pad@) =~= out@ + items_text(sv, k + 1, pad@));
        k += 1;
    }
    assert(out@ + items_text(sv, k as int, pad@) =~= out@);
}

/// Serialize a frontmatter map back to YAML, without the fences.
///
/// Entries come out in key order, which keeps rewrites stable in git.
pub fn to_yaml(map: &Entries) -> (r: String)
    ensures
        r@ == yaml_text(map_view(map@)),
{
    let mut out: Vec<char> = Vec::new();
    let empty: Vec<char> = Vec::new();
    write_entries(&mut out, map, 0, empty.as_slice());
    assert(out@ =~= yaml_text(map_view(map@)));
    string_of(out.as_slice())
}

/// Render a full note from frontmatter plus body.
pub fn compose(map: &Entries, body: &str) -> (r: String)
    ensures
        r@ == compose_spec(map_view(map@), body@),
{
    proof {
        crate::yaml::lemma_entries_view(map@, 0);
    }
    let b = chars_of(body);
    if map.len() == 0 {
        return string_of(b.as_slice());
    }
    let mut out: Vec<char> = Vec::new();
    emit(&mut out, &['-', '-', '-', '\n']);
    let y = chars_of(to_yaml(map).as_str());
    emit(&mut out, y.as_slice());
    emit(&mut out, &['-', '-', '-', '\n']);
    if b.len() > 0 && b[0] != '\n' {
        out.push('\n');
    }
    emit(&mut out, b.as_slice());
    assert(out@ =~= compose_spec(map_view(map@), body@));
    string_of(out.as_slice())
}

} // verus!
