//! Extraction of the structure that makes a pile of markdown a knowledge base:
//! wikilinks, markdown links, tags, headings and block ids.
//!
//! Everything here works on the note *body* (frontmatter already stripped) and
//! reports 1-based line numbers relative to that body. Code spans and fenced
//! code blocks are skipped, so `` `[[not a link]]` `` stays inert.

use vstd::prelude::*;
use vstd::utf8::*;

use crate::text::{back_char, byte_len, char_width, opt_int, alphanumeric, chars_of, contains, find_char, find_from, is_alphanumeric, is_ascii_alnum, is_numeric, is_whitespace, is_ws, lemma_find_from, lemma_run_len, lines, lt, numeric, run_len, run_length, skip_ws, skip_ws_index, slice_of, split_lines, string_of, trim, trim_end, trim_end_char, trim_end_char_vec, trim_end_vec, trim_start, trim_start_char, trim_start_char_vec, trim_start_vec, trim_vec, utf8_bytes, utf8_chars};

verus! {

#[derive(Debug, Clone, Copy, PartialEq, Eq, Structural)]
pub enum LinkKind {
    /// `[[Target]]`, the vault-native form.
    Wiki,
    /// `[label](target.md)`, a relative markdown link.
    Markdown,
}

#[derive(Debug, Clone, PartialEq)]
pub struct LinkRef {
    pub kind: LinkKind,
    /// Link target as written, before vault resolution.
    pub target: String,
    /// `#heading` or `#^block-id` fragment, without the leading `#`.
    pub heading: Option<String>,
    /// Display text, when it differs from the target.
    pub alias: Option<String>,
    /// `![[…]]` / `![…](…)` transclusion rather than a plain link.
    pub embed: bool,
    /// 1-based line within the note body.
    pub line: usize,
}

#[derive(Debug, Clone, PartialEq)]
pub struct TagRef {
    pub name: String,
    pub line: usize,
}

#[derive(Debug, Clone, PartialEq)]
pub struct Heading {
    pub level: usize,
    pub text: String,
    pub line: usize,
}

#[derive(Debug, Clone, PartialEq)]
pub struct Scan {
    pub links: Vec<LinkRef>,
    pub tags: Vec<TagRef>,
    pub headings: Vec<Heading>,
    /// `^block-id` anchors found at end of line.
    pub block_ids: Vec<String>,
}

/// The mathematical content of a [`LinkRef`].
pub struct SpecLink {
    pub kind: LinkKind,
    pub target: Seq<char>,
    pub heading: Option<Seq<char>>,
    pub alias: Option<Seq<char>>,
    pub embed: bool,
    pub line: nat,
}

pub struct SpecTag {
    pub name: Seq<char>,
    pub line: nat,
}

pub struct SpecHeading {
    pub level: nat,
    pub text: Seq<char>,
    pub line: nat,
}

#[verifier::ext_equal]
pub struct SpecScan {
    pub links: Seq<SpecLink>,
    pub tags: Seq<SpecTag>,
    pub headings: Seq<SpecHeading>,
    pub block_ids: Seq<Seq<char>>,
}

pub open spec fn opt_view(o: Option<String>) -> Option<Seq<char>> {
    match o {
        Some(s) => Some(s@),
        None => None,
    }
}

impl View for LinkRef {
    type V = SpecLink;

    open spec fn view(&self) -> SpecLink {
        SpecLink {
            kind: self.kind,
            target: self.target@,
            heading: opt_view(self.heading),
            alias: opt_view(self.alias),
            embed: self.embed,
            line: self.line as nat,
        }
    }
}

impl View for TagRef {
    type V = SpecTag;

    open spec fn view(&self) -> SpecTag {
        SpecTag { name: self.name@, line: self.line as nat }
    }
}

impl View for Heading {
    type V = SpecHeading;

    open spec fn view(&self) -> SpecHeading {
        SpecHeading { level: self.level as nat, text: self.text@, line: self.line as nat }
    }
}

pub open spec fn links_view(v: Seq<LinkRef>) -> Seq<SpecLink> {
    v.map_values(|l: LinkRef| l@)
}

pub open spec fn tags_view(v: Seq<TagRef>) -> Seq<SpecTag> {
    v.map_values(|t: TagRef| t@)
}

pub open spec fn headings_view(v: Seq<Heading>) -> Seq<SpecHeading> {
    v.map_values(|h: Heading| h@)
}

pub open spec fn strings_view(v: Seq<String>) -> Seq<Seq<char>> {
    v.map_values(|s: String| s@)
}

impl View for Scan {
    type V = SpecScan;

    open spec fn view(&self) -> SpecScan {
        SpecScan {
            links: links_view(self.links@),
            tags: tags_view(self.tags@),
            headings: headings_view(self.headings@),
            block_ids: strings_view(self.block_ids@),
        }
    }
}

pub open spec fn opt_seq<T>(o: Option<T>) -> Seq<T> {
    match o {
        Some(x) => seq![x],
        None => seq![],
    }
}

// ---------------------------------------------------------------------------
// fenced code blocks
// ---------------------------------------------------------------------------

/// A run of three or more backticks or tildes opening a line.
pub open spec fn fence_marker(t: Seq<char>) -> Option<(char, nat)> {
    if run_len(t, 0, '`') >= 3 {
        Some(('`', run_len(t, 0, '`')))
    } else if run_len(t, 0, '~') >= 3 {
        Some(('~', run_len(t, 0, '~')))
    } else {
        None
    }
}

fn fence_marker_exec(t: &[char]) -> (r: Option<(char, usize)>)
    ensures
        match (r, fence_marker(t@)) {
            (Some((c, n)), Some((c2, n2))) => c == c2 && n == n2,
            (None, None) => true,
            _ => false,
        },
{
    let b = run_length(t, 0, '`');
    if b >= 3 {
        return Some(('`', b));
    }
    let ti = run_length(t, 0, '~');
    if ti >= 3 {
        return Some(('~', ti));
    }
    None
}

/// UTF-8 width of the leading whitespace of a line, saturating at 4.
fn indent_width(raw: &[char]) -> (r: usize)
    ensures
        (r < 4) == (byte_len(raw@.subrange(0, skip_ws(raw@, 0))) < 4),
{
    let n = skip_ws_index(raw, 0);
    let mut w: usize = 0;
    let mut k: usize = 0;
    while k < n
        invariant
            k <= n <= raw@.len(),
            w <= 4,
            w == 4 ==> byte_len(raw@.subrange(0, k as int)) >= 4,
            w < 4 ==> w == byte_len(raw@.subrange(0, k as int)),
        decreases n - k,
    {
        let ghost pre = raw@.subrange(0, k as int);
        let c = raw[k];
        let u = c as u32;
        let cw: usize = if u < 0x80 {
            1
        } else if u < 0x800 {
            2
        } else if u < 0x10000 {
            3
        } else {
            4
        };
        assert(raw@.subrange(0, k + 1).drop_last() =~= pre);
        assert(raw@.subrange(0, k + 1).last() == c);
        if w + cw >= 4 {
            w = 4;
        } else {
            w = w + cw;
        }
        k += 1;
    }
    w
}

// ---------------------------------------------------------------------------
// inline code spans
// ---------------------------------------------------------------------------

/// Start of a run of exactly `n` backticks at or after `j`, skipping shorter
/// or longer runs whole.
pub open spec fn closing_run(c: Seq<char>, j: int, n: nat) -> Option<int>
    decreases c.len() - j,
{
    if j < 0 || j >= c.len() {
        None
    } else if c[j] == '`' {
        proof {
            lemma_run_len(c, j, '`');
        }
        if run_len(c, j, '`') == n {
            Some(j)
        } else {
            closing_run(c, j + run_len(c, j, '`'), n)
        }
    } else {
        closing_run(c, j + 1, n)
    }
}

pub proof fn lemma_closing_run(c: Seq<char>, j: int, n: nat)
    requires
        0 <= j <= c.len(),
    ensures
        closing_run(c, j, n) matches Some(e) ==> j <= e && e + n <= c.len() && run_len(c, e, '`')
            == n,
    decreases c.len() - j,
{
    if j < c.len() {
        lemma_run_len(c, j, '`');
        if c[j] == '`' {
            if run_len(c, j, '`') != n {
                lemma_closing_run(c, j + run_len(c, j, '`') as int, n);
            }
        } else {
            lemma_closing_run(c, j + 1, n);
        }
    }
}

/// `out` with positions `a..b` replaced by spaces.
pub open spec fn blank(out: Seq<char>, a: int, b: int) -> Seq<char> {
    Seq::new(out.len(), |k: int| if a <= k < b { ' ' } else { out[k] })
}

/// Inline code spans of `c` from position `i` on, blanked in `out`.
pub open spec fn mask_from(c: Seq<char>, i: int, out: Seq<char>) -> Seq<char>
    decreases c.len() - i,
{
    if i < 0 || i >= c.len() {
        out
    } else if c[i] != '`' {
        mask_from(c, i + 1, out)
    } else {
        let n = run_len(c, i, '`');
        proof {
            lemma_run_len(c, i, '`');
            lemma_closing_run(c, i + n, n);
        }
        match closing_run(c, i + n, n) {
            Some(e) => mask_from(c, e + n, blank(out, i, e + n)),
            None => out,
        }
    }
}

/// The characters of `c` in code spans, as `blanks` marks them: positions
/// where `blanks` holds a space that `c` does not.
pub open spec fn masked_piece(ch: char, b: char) -> Seq<char> {
    if b == ch {
        seq![ch]
    } else {
        Seq::new(char_width(ch), |k: int| ' ')
    }
}

/// The first `n` characters of `c`, each kept, or replaced by one space per
/// UTF-8 byte where `blanks` marks it.
pub open spec fn widen(c: Seq<char>, blanks: Seq<char>, n: int) -> Seq<char>
    decreases n,
{
    if n <= 0 {
        seq![]
    } else {
        widen(c, blanks, n - 1) + masked_piece(c[n - 1], blanks[n - 1])
    }
}

/// A line with every inline code span replaced by spaces, one space for each
/// byte of the span, so every byte offset and the line's byte length stay.
pub open spec fn mask_inline_code(c: Seq<char>) -> Seq<char> {
    widen(c, mask_from(c, 0, c), c.len() as int)
}

proof fn lemma_mask_shape(c: Seq<char>, i: int, out: Seq<char>)
    requires
        0 <= i <= c.len(),
        out.len() == c.len(),
        forall|k: int| 0 <= k < c.len() ==> out[k] == c[k] || out[k] == ' ',
    ensures
        mask_from(c, i, out).len() == c.len(),
        forall|k: int|
            0 <= k < c.len() ==> #[trigger] mask_from(c, i, out)[k] == c[k] || mask_from(
                c,
                i,
                out,
            )[k] == ' ',
    decreases c.len() - i,
{
    if i < c.len() {
        if c[i] != '`' {
            lemma_mask_shape(c, i + 1, out);
        } else {
            let n = run_len(c, i, '`');
            lemma_run_len(c, i, '`');
            lemma_closing_run(c, i + n, n);
            match closing_run(c, i + n, n) {
                Some(e) => {
                    lemma_mask_shape(c, e + n, blank(out, i, e + n));
                },
                None => {},
            }
        }
    }
}

proof fn lemma_byte_len_concat(a: Seq<char>, b: Seq<char>)
    ensures
        byte_len(a + b) == byte_len(a) + byte_len(b),
    decreases b.len(),
{
    if b.len() > 0 {
        lemma_byte_len_concat(a, b.drop_last());
        assert((a + b).drop_last() =~= a + b.drop_last());
        assert((a + b).last() == b.last());
    } else {
        assert(a + b =~= a);
    }
}

proof fn lemma_byte_len_spaces(n: nat)
    ensures
        byte_len(Seq::new(n, |k: int| ' ')) == n,
    decreases n,
{
    if n > 0 {
        lemma_byte_len_spaces((n - 1) as nat);
        assert(Seq::new(n, |k: int| ' ').drop_last() =~= Seq::new((n - 1) as nat, |k: int| ' '));
    }
}

proof fn lemma_widen_bytes(c: Seq<char>, blanks: Seq<char>, n: int)
    requires
        0 <= n <= c.len(),
        blanks.len() == c.len(),
    ensures
        byte_len(widen(c, blanks, n)) == byte_len(c.subrange(0, n)),
    decreases n,
{
    if n > 0 {
        lemma_widen_bytes(c, blanks, n - 1);
        lemma_byte_len_concat(widen(c, blanks, n - 1), masked_piece(c[n - 1], blanks[n - 1]));
        assert(c.subrange(0, n).drop_last() =~= c.subrange(0, n - 1));
        if blanks[n - 1] == c[n - 1] {
            assert(byte_len(seq![c[n - 1]]) == char_width(c[n - 1])) by {
                let one = seq![c[n - 1]];
                assert(one.drop_last() =~= Seq::<char>::empty());
                assert(one.last() == c[n - 1]);
                assert(byte_len(Seq::<char>::empty()) == 0);
            }
        } else {
            lemma_byte_len_spaces(char_width(c[n - 1]));
        }
    } else {
        assert(c.subrange(0, 0) =~= Seq::<char>::empty());
    }
}

/// Masking keeps the line's UTF-8 length, so every byte offset into the masked
/// line is one into the line. Character by character, a character outside the
/// closed inline code spans stays as it is, and one inside them becomes as many
/// spaces as it has bytes.
pub proof fn lemma_mask_preserves_length(c: Seq<char>)
    ensures
        byte_len(mask_inline_code(c)) == byte_len(c),
        mask_from(c, 0, c).len() == c.len(),
        forall|k: int|
            0 <= k < c.len() ==> #[trigger] mask_from(c, 0, c)[k] == c[k] || mask_from(c, 0, c)[k]
                == ' ',
        mask_inline_code(c) == widen(c, mask_from(c, 0, c), c.len() as int),
{
    lemma_mask_shape(c, 0, c);
    lemma_widen_bytes(c, mask_from(c, 0, c), c.len() as int);
    assert(c.subrange(0, c.len() as int) =~= c);
}

fn find_closing_run(c: &[char], from: usize, n: usize) -> (r: Option<usize>)
    requires
        from <= c@.len(),
        n >= 1,
    ensures
        opt_int(r) == closing_run(c@, from as int, n as nat),
{
    let mut j = from;
    while j < c.len()
        invariant
            from <= j <= c@.len(),
            n >= 1,
            closing_run(c@, j as int, n as nat) == closing_run(c@, from as int, n as nat),
        decreases c@.len() - j,
    {
        if c[j] == '`' {
            let run = run_length(c, j, '`');
            if run == n {
                return Some(j);
            }
            j += run;
        } else {
            j += 1;
        }
    }
    None
}

fn blank_inline_code(line: &[char]) -> (r: Vec<char>)
    ensures
        r@ == mask_from(line@, 0, line@),
{
    let mut out: Vec<char> = slice_of(line, 0, line.len());
    let mut i: usize = 0;
    assert(line@.subrange(0, line@.len() as int) =~= line@);
    while i < line.len()
        invariant
            i <= line@.len(),
            out@.len() == line@.len(),
            mask_from(line@, i as int, out@) == mask_from(line@, 0, line@),
        decreases line@.len() - i,
    {
        if line[i] != '`' {
            i += 1;
            continue;
        }
        let n = run_length(line, i, '`');
        proof {
            lemma_run_len(line@, i as int, '`');
            lemma_closing_run(line@, i + n, n as nat);
        }
        match find_closing_run(line, i + n, n) {
            Some(e) => {
                let ghost before = out@;
                let end = e + n;
                let mut k = i;
                while k < end
                    invariant
                        i <= k <= end <= line@.len(),
                        before.len() == line@.len(),
                        out@.len() == before.len(),
                        forall|m: int|
                            0 <= m < out@.len() ==> #[trigger] out@[m] == if i <= m < k {
                                ' '
                            } else {
                                before[m]
                            },
                    decreases end - k,
                {
                    out.set(k, ' ');
                    k += 1;
                }
                assert(out@ =~= blank(before, i as int, end as int));
                i = end;
            },
            None => {
                return out;
            },
        }
    }
    out
}

pub fn mask_inline_code_exec(line: &[char]) -> (r: Vec<char>)
    ensures
        r@ == mask_inline_code(line@),
{
    let blanks = blank_inline_code(line);
    proof {
        lemma_mask_shape(line@, 0, line@);
    }
    let mut out: Vec<char> = Vec::new();
    let mut k: usize = 0;
    while k < line.len()
        invariant
            k <= line@.len(),
            blanks@.len() == line@.len(),
            out@ == widen(line@, blanks@, k as int),
        decreases line@.len() - k,
    {
        let ch = line[k];
        if blanks[k] == ch {
            out.push(ch);
        } else {
            let u = ch as u32;
            let w: usize = if u < 0x80 {
                1
            } else if u < 0x800 {
                2
            } else if u < 0x10000 {
                3
            } else {
                4
            };
            let ghost before = out@;
            let mut j: usize = 0;
            while j < w
                invariant
                    j <= w,
                    w == char_width(ch),
                    out@ == before + Seq::new(j as nat, |m: int| ' '),
                decreases w - j,
            {
                out.push(' ');
                j += 1;
                assert(out@ =~= before + Seq::new(j as nat, |m: int| ' '));
            }
        }
        k += 1;
        assert(out@ =~= widen(line@, blanks@, k as int));
    }
    out
}

// ---------------------------------------------------------------------------
// headings and block ids
// ---------------------------------------------------------------------------

/// An ATX heading: one to six `#`, then a space or the end of the line.
pub open spec fn parse_heading(line: Seq<char>, line_no: nat) -> Option<SpecHeading> {
    let t = trim_start(line);
    let level = run_len(t, 0, '#');
    let rest = t.subrange(level as int, t.len() as int);
    let text = trim(trim_end_char(trim(rest), '#'));
    if level == 0 || level > 6 {
        None
    } else if rest.len() > 0 && rest[0] != ' ' {
        None
    } else if text.len() == 0 {
        None
    } else {
        Some(SpecHeading { level, text, line: line_no })
    }
}

pub fn parse_heading_exec(line: &[char], line_no: usize) -> (r: Option<Heading>)
    ensures
        match (r, parse_heading(line@, line_no as nat)) {
            (Some(h), Some(s)) => h@ == s,
            (None, None) => true,
            _ => false,
        },
{
    let t = trim_start_vec(line);
    let level = run_length(t.as_slice(), 0, '#');
    if level == 0 || level > 6 {
        return None;
    }
    let rest = slice_of(t.as_slice(), level, t.len());
    if rest.len() > 0 && rest[0] != ' ' {
        return None;
    }
    let r1 = trim_vec(rest.as_slice());
    let r2 = trim_end_char_vec(r1.as_slice(), '#');
    let text = trim_vec(r2.as_slice());
    if text.len() == 0 {
        return None;
    }
    Some(Heading { level, text: string_of(text.as_slice()), line: line_no })
}

/// Start of the final run of non-whitespace characters ending at `j`.
pub open spec fn back_non_ws(s: Seq<char>, j: int) -> int
    decreases j,
{
    if 0 < j <= s.len() && !is_ws(s[j - 1]) {
        back_non_ws(s, j - 1)
    } else {
        j
    }
}

pub open spec fn block_id_char(c: char) -> bool {
    alphanumeric(c) || c == '-'
}

/// A trailing `^id` of letters, digits and dashes.
pub open spec fn parse_block_id(line: Seq<char>) -> Option<Seq<char>> {
    let t = trim_end(line);
    let last = t.subrange(back_non_ws(t, t.len() as int), t.len() as int);
    let id = last.subrange(1, last.len() as int);
    if last.len() == 0 || last[0] != '^' {
        None
    } else if id.len() == 0 || exists|k: int| 0 <= k < id.len() && !block_id_char(id[k]) {
        None
    } else {
        Some(id)
    }
}

#[verifier::loop_isolation(false)]
pub fn parse_block_id_exec(line: &[char]) -> (r: Option<String>)
    ensures
        opt_view(r) == parse_block_id(line@),
{
    let t = trim_end_vec(line);
    let mut j = t.len();
    while j > 0 && !is_whitespace(t[j - 1])
        invariant
            j <= t@.len(),
            back_non_ws(t@, j as int) == back_non_ws(t@, t@.len() as int),
        decreases j,
    {
        j -= 1;
    }
    let last = slice_of(t.as_slice(), j, t.len());
    if last.len() == 0 || last[0] != '^' {
        return None;
    }
    let id = slice_of(last.as_slice(), 1, last.len());
    if id.len() == 0 {
        return None;
    }
    let mut k: usize = 0;
    while k < id.len()
        invariant
            k <= id@.len(),
            forall|m: int| 0 <= m < k ==> block_id_char(id@[m]),
        decreases id@.len() - k,
    {
        let c = id[k];
        if !(is_alphanumeric(c) || c == '-') {
            assert(!block_id_char(id@[k as int]));
            return None;
        }
        k += 1;
    }
    Some(string_of(id.as_slice()))
}

// ---------------------------------------------------------------------------
// wikilinks
// ---------------------------------------------------------------------------

/// Position of the `]]` that closes a wikilink opened before `j`, unless
/// another `[[` comes first.
pub open spec fn find_close(c: Seq<char>, j: int) -> Option<int>
    decreases c.len() - j,
{
    if j < 0 || j + 1 >= c.len() {
        None
    } else if c[j] == ']' && c[j + 1] == ']' {
        Some(j)
    } else if c[j] == '[' && c[j + 1] == '[' {
        None
    } else {
        find_close(c, j + 1)
    }
}

pub proof fn lemma_find_close(c: Seq<char>, j: int)
    ensures
        find_close(c, j) matches Some(e) ==> 0 <= j <= e && e + 1 < c.len(),
    decreases c.len() - j,
{
    if 0 <= j && j + 1 < c.len() && !(c[j] == ']' && c[j + 1] == ']') && !(c[j] == '['
        && c[j + 1] == '[') {
        lemma_find_close(c, j + 1);
    }
}

fn find_close_exec(c: &[char], from: usize) -> (r: Option<usize>)
    ensures
        opt_int(r) == find_close(c@, from as int),
{
    let mut j = from;
    while j < c.len() && j + 1 < c.len()
        invariant
            from <= j,
            find_close(c@, j as int) == find_close(c@, from as int),
        decreases c@.len() - j,
    {
        if c[j] == ']' && c[j + 1] == ']' {
            return Some(j);
        }
        if c[j] == '[' && c[j + 1] == '[' {
            return None;
        }
        j += 1;
    }
    None
}

/// The contents of `[[…]]`: `target#heading|alias`.
pub open spec fn parse_wikilink(inner: Seq<char>, embed: bool, line: nat) -> Option<SpecLink> {
    let p = find_from(inner, '|', 0);
    let path_part = inner.subrange(0, p);
    let alias_text = trim(inner.subrange(p + 1, inner.len() as int));
    let alias = if p < inner.len() && alias_text.len() > 0 {
        Some(alias_text)
    } else {
        None
    };
    let h = find_from(path_part, '#', 0);
    let fragment = trim(path_part.subrange(h + 1, path_part.len() as int));
    let heading = if h < path_part.len() && fragment.len() > 0 {
        Some(fragment)
    } else {
        None
    };
    let target = trim(path_part.subrange(0, h));
    if trim(inner).len() == 0 {
        None
    } else if target.len() == 0 && heading is None {
        None
    } else {
        Some(SpecLink { kind: LinkKind::Wiki, target, heading, alias, embed, line })
    }
}

fn parse_wikilink_exec(inner: &[char], embed: bool, line: usize) -> (r: Option<LinkRef>)
    ensures
        match (r, parse_wikilink(inner@, embed, line as nat)) {
            (Some(l), Some(s)) => l@ == s,
            (None, None) => true,
            _ => false,
        },
{
    let all = trim_vec(inner);
    if all.len() == 0 {
        return None;
    }
    let p = find_char(inner, '|', 0);
    proof {
        lemma_find_from(inner@, '|', 0);
    }
    let path_part = slice_of(inner, 0, p);
    let alias = if p < inner.len() {
        let a = slice_of(inner, p + 1, inner.len());
        let at = trim_vec(a.as_slice());
        if at.len() > 0 {
            Some(string_of(at.as_slice()))
        } else {
            None
        }
    } else {
        None
    };
    let h = find_char(path_part.as_slice(), '#', 0);
    proof {
        lemma_find_from(path_part@, '#', 0);
    }
    let heading = if h < path_part.len() {
        let f = slice_of(path_part.as_slice(), h + 1, path_part.len());
        let ft = trim_vec(f.as_slice());
        if ft.len() > 0 {
            Some(string_of(ft.as_slice()))
        } else {
            None
        }
    } else {
        None
    };
    let t = slice_of(path_part.as_slice(), 0, h);
    let target = trim_vec(t.as_slice());
    if target.len() == 0 && heading.is_none() {
        return None;
    }
    Some(
        LinkRef {
            kind: LinkKind::Wiki,
            target: string_of(target.as_slice()),
            heading,
            alias,
            embed,
            line,
        },
    )
}

/// Wikilinks of a (masked) line from position `i` on.
pub open spec fn wikilinks_from(c: Seq<char>, i: int, line: nat) -> Seq<SpecLink>
    decreases c.len() - i,
{
    if i < 0 || i + 1 >= c.len() {
        seq![]
    } else if c[i] != '[' || c[i + 1] != '[' {
        wikilinks_from(c, i + 1, line)
    } else {
        proof {
            lemma_find_close(c, i + 2);
        }
        match find_close(c, i + 2) {
            None => wikilinks_from(c, i + 1, line),
            Some(end) => opt_seq(
                parse_wikilink(c.subrange(i + 2, end), i > 0 && c[i - 1] == '!', line),
            ) + wikilinks_from(c, end + 2, line),
        }
    }
}

fn collect_wikilinks(c: &[char], line: usize) -> (r: Vec<LinkRef>)
    ensures
        links_view(r@) == wikilinks_from(c@, 0, line as nat),
{
    let mut out: Vec<LinkRef> = Vec::new();
    let mut i: usize = 0;
    while i < c.len() && i + 1 < c.len()
        invariant
            i <= c@.len(),
            links_view(out@) + wikilinks_from(c@, i as int, line as nat) == wikilinks_from(
                c@,
                0,
                line as nat,
            ),
        decreases c@.len() - i,
    {
        if c[i] != '[' || c[i + 1] != '[' {
            i += 1;
            continue;
        }
        proof {
            lemma_find_close(c@, i + 2);
        }
        match find_close_exec(c, i + 2) {
            None => {
                i += 1;
            },
            Some(end) => {
                let inner = slice_of(c, i + 2, end);
                let embed = i > 0 && c[i - 1] == '!';
                let ghost before = links_view(out@);
                match parse_wikilink_exec(inner.as_slice(), embed, line) {
                    Some(link) => {
                        out.push(link);
                        assert(links_view(out@) =~= before + seq![link@]);
                    },
                    None => {},
                }
                assert(links_view(out@) + wikilinks_from(c@, end + 2, line as nat) =~= before
                    + wikilinks_from(c@, i as int, line as nat));
                i = end + 2;
            },
        }
    }
    assert(links_view(out@) + wikilinks_from(c@, i as int, line as nat) =~= links_view(out@));
    out
}

// ---------------------------------------------------------------------------
// markdown links
// ---------------------------------------------------------------------------

/// The `)` that balances the `(` at `k - 1`, with `depth` parentheses open.
pub open spec fn matching_paren(c: Seq<char>, k: int, depth: int) -> Option<int>
    decreases c.len() - k,
{
    if k < 0 || k >= c.len() {
        None
    } else if c[k] == '(' {
        matching_paren(c, k + 1, depth + 1)
    } else if c[k] == ')' {
        if depth - 1 == 0 {
            Some(k)
        } else {
            matching_paren(c, k + 1, depth - 1)
        }
    } else {
        matching_paren(c, k + 1, depth)
    }
}

pub proof fn lemma_matching_paren(c: Seq<char>, k: int, depth: int)
    ensures
        matching_paren(c, k, depth) matches Some(e) ==> k <= e < c.len(),
    decreases c.len() - k,
{
    if 0 <= k < c.len() {
        if c[k] == '(' {
            lemma_matching_paren(c, k + 1, depth + 1);
        } else if c[k] == ')' {
            if depth - 1 != 0 {
                lemma_matching_paren(c, k + 1, depth - 1);
            }
        } else {
            lemma_matching_paren(c, k + 1, depth);
        }
    }
}

fn matching_paren_exec(c: &[char], open: usize) -> (r: Option<usize>)
    requires
        open < c.len(),
        c@[open as int] == '(',
    ensures
        opt_int(r) == matching_paren(c@, open as int + 1, 1),
{
    let mut depth: usize = 1;
    let mut k = open + 1;
    while k < c.len()
        invariant
            open < k <= c@.len(),
            depth >= 1,
            depth <= k - open,
            matching_paren(c@, k as int, depth as int) == matching_paren(c@, open as int + 1, 1),
        decreases c@.len() - k,
    {
        if c[k] == '(' {
            depth += 1;
        } else if c[k] == ')' {
            if depth - 1 == 0 {
                return Some(k);
            }
            depth -= 1;
        }
        k += 1;
    }
    None
}

/// Start of the first whitespace character at or after `i`.
pub open spec fn find_ws(s: Seq<char>, i: int) -> int
    decreases s.len() - i,
{
    if i < 0 || i >= s.len() {
        i
    } else if is_ws(s[i]) {
        i
    } else {
        find_ws(s, i + 1)
    }
}

pub proof fn lemma_find_ws(s: Seq<char>, i: int)
    requires
        0 <= i <= s.len(),
    ensures
        i <= find_ws(s, i) <= s.len(),
    decreases s.len() - i,
{
    if i < s.len() && !is_ws(s[i]) {
        lemma_find_ws(s, i + 1);
    }
}

/// The first whitespace-separated word (`str::split_whitespace().next()`),
/// or nothing.
pub open spec fn first_word(s: Seq<char>) -> Seq<char> {
    let a = skip_ws(s, 0);
    s.subrange(a, find_ws(s, a))
}

fn first_word_exec(s: &[char]) -> (r: Vec<char>)
    ensures
        r@ == first_word(s@),
{
    let a = skip_ws_index(s, 0);
    let mut e = a;
    proof {
        lemma_find_ws(s@, a as int);
    }
    while e < s.len() && !is_whitespace(s[e])
        invariant
            a <= e <= s@.len(),
            find_ws(s@, e as int) == find_ws(s@, a as int),
        decreases s@.len() - e,
    {
        e += 1;
    }
    slice_of(s, a, e)
}

pub open spec fn scheme_char(c: char) -> bool {
    is_ascii_alnum(c) || c == '+' || c == '-' || c == '.'
}

/// Anchors, protocol-relative URLs and anything with a `scheme:` prefix.
pub open spec fn is_external(t: Seq<char>) -> bool {
    let k = find_from(t, ':', 0);
    if t.len() > 0 && t[0] == '#' {
        true
    } else if t.len() > 1 && t[0] == '/' && t[1] == '/' {
        true
    } else if 0 < k < t.len() {
        forall|m: int| 0 <= m < k ==> scheme_char(#[trigger] t[m])
    } else {
        false
    }
}

#[verifier::loop_isolation(false)]
fn is_external_exec(t: &[char]) -> (r: bool)
    ensures
        r == is_external(t@),
{
    if t.len() > 0 && t[0] == '#' {
        return true;
    }
    if t.len() > 1 && t[0] == '/' && t[1] == '/' {
        return true;
    }
    let k = find_char(t, ':', 0);
    if 0 < k && k < t.len() {
        let mut m: usize = 0;
        while m < k
            invariant
                m <= k < t@.len(),
                forall|j: int| 0 <= j < m ==> scheme_char(#[trigger] t@[j]),
            decreases k - m,
        {
            let c = t[m];
            if !(('0' <= c && c <= '9') || ('a' <= c && c <= 'z') || ('A' <= c && c <= 'Z') || c
                == '+' || c == '-' || c == '.') {
                assert(!scheme_char(t@[m as int]));
                return false;
            }
            m += 1;
        }
        true
    } else {
        false
    }
}

pub open spec fn hex_digit(b: u8) -> Option<u8> {
    if 0x30 <= b <= 0x39 {
        Some((b - 0x30) as u8)
    } else if 0x61 <= b <= 0x66 {
        Some((b - 0x61 + 10) as u8)
    } else if 0x41 <= b <= 0x46 {
        Some((b - 0x41 + 10) as u8)
    } else {
        None
    }
}

/// `u8::from_str_radix(h, 16)` on the two bytes `x y` (a leading `+` is
/// accepted by `from_str_radix`).
pub open spec fn hex_pair(x: u8, y: u8) -> Option<u8> {
    if x == 0x2B {
        hex_digit(y)
    } else {
        match (hex_digit(x), hex_digit(y)) {
            (Some(a), Some(b)) => Some((a * 16 + b) as u8),
            _ => None,
        }
    }
}

fn hex_digit_exec(b: u8) -> (r: Option<u8>)
    ensures
        r == hex_digit(b),
{
    if 0x30 <= b && b <= 0x39 {
        Some(b - 0x30)
    } else if 0x61 <= b && b <= 0x66 {
        Some(b - 0x61 + 10)
    } else if 0x41 <= b && b <= 0x46 {
        Some(b - 0x41 + 10)
    } else {
        None
    }
}

fn hex_pair_exec(x: u8, y: u8) -> (r: Option<u8>)
    ensures
        r == hex_pair(x, y),
{
    if x == 0x2B {
        hex_digit_exec(y)
    } else {
        match (hex_digit_exec(x), hex_digit_exec(y)) {
            (Some(a), Some(b)) => Some(a * 16 + b),
            _ => None,
        }
    }
}

/// Percent-decoding of a byte string from position `i` on.
pub open spec fn percent_from(b: Seq<u8>, i: int) -> Seq<u8>
    decreases b.len() - i,
{
    if i < 0 || i >= b.len() {
        seq![]
    } else if b[i] == 0x25 && i + 2 < b.len() && hex_pair(b[i + 1], b[i + 2]) is Some {
        seq![hex_pair(b[i + 1], b[i + 2])->0] + percent_from(b, i + 3)
    } else {
        seq![b[i]] + percent_from(b, i + 1)
    }
}

/// Minimal percent-decoding, enough for the `%20` that editors emit in paths.
/// Text without `%`, or whose decoding is not UTF-8, is kept as it is.
pub open spec fn decode(text: Seq<char>) -> Seq<char> {
    let out = percent_from(encode_utf8(text), 0);
    if !text.contains('%') {
        text
    } else if valid_utf8(out) {
        decode_utf8(out)
    } else {
        text
    }
}

fn decode_exec(text: &[char]) -> (r: Vec<char>)
    ensures
        r@ == decode(text@),
{
    let k = find_char(text, '%', 0);
    proof {
        lemma_find_from(text@, '%', 0);
    }
    if k == text.len() {
        assert(!text@.contains('%'));
        return slice_of(text, 0, text.len());
    }
    assert(text@.contains('%')) by {
        assert(text@[k as int] == '%');
    }
    let bytes = utf8_bytes(text);
    let mut out: Vec<u8> = Vec::new();
    let mut i: usize = 0;
    while i < bytes.len()
        invariant
            i <= bytes@.len(),
            out@ + percent_from(bytes@, i as int) == percent_from(bytes@, 0),
        decreases bytes@.len() - i,
    {
        let ghost before = out@;
        if bytes[i] == 0x25 && bytes.len() - i > 2 {
            if let Some(v) = hex_pair_exec(bytes[i + 1], bytes[i + 2]) {
                out.push(v);
                assert(before + percent_from(bytes@, i as int) =~= out@ + percent_from(
                    bytes@,
                    i + 3,
                ));
                i += 3;
                continue;
            }
        }
        out.push(bytes[i]);
        assert(before + percent_from(bytes@, i as int) =~= out@ + percent_from(bytes@, i + 1));
        i += 1;
    }
    assert(out@ + percent_from(bytes@, i as int) =~= out@);
    match utf8_chars(out) {
        Some(v) => v,
        None => slice_of(text, 0, text.len()),
    }
}

/// The target of `[label](target)`: relative paths only.
pub open spec fn parse_markdown_link(raw: Seq<char>, label: Seq<char>, embed: bool, line: nat) -> Option<
    SpecLink,
> {
    let tp = trim_end_char(trim_start_char(first_word(raw), '<'), '>');
    let h = find_from(tp, '#', 0);
    let split = h < tp.len() && h > 0;
    let fragment = tp.subrange(h + 1, tp.len() as int);
    let heading = if split && fragment.len() > 0 {
        Some(decode(fragment))
    } else {
        None
    };
    let target = decode(
        if split {
            tp.subrange(0, h)
        } else {
            tp
        },
    );
    let alias = if trim(label).len() == 0 {
        None
    } else {
        Some(trim(label))
    };
    if tp.len() == 0 || is_external(tp) {
        None
    } else if target.len() == 0 {
        None
    } else {
        Some(SpecLink { kind: LinkKind::Markdown, target, heading, alias, embed, line })
    }
}

fn parse_markdown_link_exec(raw: &[char], label: &[char], embed: bool, line: usize) -> (r: Option<
    LinkRef,
>)
    ensures
        match (r, parse_markdown_link(raw@, label@, embed, line as nat)) {
            (Some(l), Some(s)) => l@ == s,
            (None, None) => true,
            _ => false,
        },
{
    let w = first_word_exec(raw);
    let a = trim_start_char_vec(w.as_slice(), '<');
    let tp = trim_end_char_vec(a.as_slice(), '>');
    if tp.len() == 0 || is_external_exec(tp.as_slice()) {
        return None;
    }
    let h = find_char(tp.as_slice(), '#', 0);
    proof {
        lemma_find_from(tp@, '#', 0);
    }
    let split = h < tp.len() && h > 0;
    let heading = if split {
        let fragment = slice_of(tp.as_slice(), h + 1, tp.len());
        if fragment.len() > 0 {
            Some(string_of(decode_exec(fragment.as_slice()).as_slice()))
        } else {
            None
        }
    } else {
        None
    };
    let target = if split {
        let t = slice_of(tp.as_slice(), 0, h);
        decode_exec(t.as_slice())
    } else {
        decode_exec(tp.as_slice())
    };
    if target.len() == 0 {
        return None;
    }
    let lt = trim_vec(label);
    let alias = if lt.len() == 0 {
        None
    } else {
        Some(string_of(lt.as_slice()))
    };
    Some(
        LinkRef {
            kind: LinkKind::Markdown,
            target: string_of(target.as_slice()),
            heading,
            alias,
            embed,
            line,
        },
    )
}

/// Markdown links of a (masked) line from position `i` on.
pub open spec fn markdown_links_from(c: Seq<char>, i: int, line: nat) -> Seq<SpecLink>
    decreases c.len() - i,
{
    if i < 0 || i >= c.len() {
        seq![]
    } else if c[i] != '[' {
        markdown_links_from(c, i + 1, line)
    } else if i + 1 < c.len() && c[i + 1] == '[' {
        markdown_links_from(c, i + 2, line)
    } else {
        let le = find_from(c, ']', i + 1);
        proof {
            lemma_find_from(c, ']', i + 1);
        }
        if le >= c.len() {
            seq![]
        } else if le + 1 >= c.len() || c[le + 1] != '(' {
            markdown_links_from(c, le + 1, line)
        } else {
            proof {
                lemma_matching_paren(c, le + 2, 1);
            }
            match matching_paren(c, le + 2, 1) {
                None => markdown_links_from(c, le + 1, line),
                Some(te) => opt_seq(
                    parse_markdown_link(
                        c.subrange(le + 2, te),
                        c.subrange(i + 1, le),
                        i > 0 && c[i - 1] == '!',
                        line,
                    ),
                ) + markdown_links_from(c, te + 1, line),
            }
        }
    }
}

fn collect_markdown_links(c: &[char], line: usize) -> (r: Vec<LinkRef>)
    ensures
        links_view(r@) == markdown_links_from(c@, 0, line as nat),
{
    let mut out: Vec<LinkRef> = Vec::new();
    let mut i: usize = 0;
    while i < c.len()
        invariant
            i <= c@.len(),
            links_view(out@) + markdown_links_from(c@, i as int, line as nat)
                == markdown_links_from(c@, 0, line as nat),
        decreases c@.len() - i,
    {
        if c[i] != '[' {
            i += 1;
            continue;
        }
        if i + 1 < c.len() && c[i + 1] == '[' {
            i += 2;
            continue;
        }
        let le = find_char(c, ']', i + 1);
        proof {
            lemma_find_from(c@, ']', i + 1);
        }
        if le >= c.len() {
            assert(links_view(out@) + markdown_links_from(c@, i as int, line as nat) =~= links_view(
                out@,
            ));
            return out;
        }
        if le + 1 >= c.len() || c[le + 1] != '(' {
            i = le + 1;
            continue;
        }
        proof {
            lemma_matching_paren(c@, le + 2, 1);
        }
        match matching_paren_exec(c, le + 1) {
            None => {
                i = le + 1;
            },
            Some(te) => {
                let raw = slice_of(c, le + 2, te);
                let label = slice_of(c, i + 1, le);
                let embed = i > 0 && c[i - 1] == '!';
                let ghost before = links_view(out@);
                match parse_markdown_link_exec(raw.as_slice(), label.as_slice(), embed, line) {
                    Some(link) => {
                        out.push(link);
                        assert(links_view(out@) =~= before + seq![link@]);
                    },
                    None => {},
                }
                assert(links_view(out@) + markdown_links_from(c@, te + 1, line as nat) =~= before
                    + markdown_links_from(c@, i as int, line as nat));
                i = te + 1;
            },
        }
    }
    assert(links_view(out@) + markdown_links_from(c@, i as int, line as nat) =~= links_view(out@));
    out
}

// ---------------------------------------------------------------------------
// tags
// ---------------------------------------------------------------------------

pub open spec fn is_tag_char(c: char) -> bool {
    alphanumeric(c) || c == '-' || c == '_' || c == '/'
}

fn is_tag_char_exec(c: char) -> (r: bool)
    ensures
        r == is_tag_char(c),
{
    is_alphanumeric(c) || c == '-' || c == '_' || c == '/'
}

/// Characters that may stand just before a tag's `#`.
pub open spec fn tag_boundary(c: char) -> bool {
    c == ' ' || c == '\t' || c == '(' || c == '[' || c == '>' || c == '-' || c == '*' || c == ','
        || c == ';' || c == ':'
}

/// Number of consecutive tag characters from `i`.
pub open spec fn tag_run(c: Seq<char>, i: int) -> nat
    decreases c.len() - i,
{
    if 0 <= i < c.len() && is_tag_char(c[i]) {
        1 + tag_run(c, i + 1)
    } else {
        0
    }
}

pub proof fn lemma_tag_run(c: Seq<char>, i: int)
    requires
        0 <= i <= c.len(),
    ensures
        i + tag_run(c, i) <= c.len(),
    decreases c.len() - i,
{
    if i < c.len() && is_tag_char(c[i]) {
        lemma_tag_run(c, i + 1);
    }
}

/// A tag name is kept unless it is made of digits only (`#2026` is a number).
pub open spec fn tag_name_ok(name: Seq<char>) -> bool {
    name.len() > 0 && exists|k: int| 0 <= k < name.len() && !numeric(name[k])
}

pub open spec fn tags_from(c: Seq<char>, i: int, line: nat) -> Seq<SpecTag>
    decreases c.len() - i,
{
    if i < 0 || i >= c.len() {
        seq![]
    } else if c[i] != '#' {
        tags_from(c, i + 1, line)
    } else if !(i == 0 || tag_boundary(c[i - 1])) {
        tags_from(c, i + 1, line)
    } else {
        let n = tag_run(c, i + 1);
        proof {
            lemma_tag_run(c, i + 1);
        }
        if n == 0 {
            tags_from(c, i + 1, line)
        } else {
            let name = trim_end_char(c.subrange(i + 1, i + 1 + n), '/');
            (if tag_name_ok(name) {
                seq![SpecTag { name, line }]
            } else {
                seq![]
            }) + tags_from(c, i + 1 + n, line)
        }
    }
}

/// Tags of a (masked) line; a heading's leading `#`s are structure, not tags.
pub open spec fn line_tags(c: Seq<char>, line: nat) -> Seq<SpecTag> {
    if parse_heading(c, line) is Some {
        seq![]
    } else {
        tags_from(c, 0, line)
    }
}

fn tag_name_ok_exec(name: &[char]) -> (r: bool)
    ensures
        r == tag_name_ok(name@),
{
    if name.len() == 0 {
        return false;
    }
    let mut k: usize = 0;
    while k < name.len()
        invariant
            k <= name@.len(),
            forall|m: int| 0 <= m < k ==> numeric(#[trigger] name@[m]),
        decreases name@.len() - k,
    {
        if !is_numeric(name[k]) {
            return true;
        }
        k += 1;
    }
    false
}

fn collect_tags(c: &[char], line: usize) -> (r: Vec<TagRef>)
    ensures
        tags_view(r@) == line_tags(c@, line as nat),
{
    let mut out: Vec<TagRef> = Vec::new();
    if parse_heading_exec(c, line).is_some() {
        assert(tags_view(out@) =~= Seq::<SpecTag>::empty());
        return out;
    }
    let mut i: usize = 0;
    while i < c.len()
        invariant
            i <= c@.len(),
            parse_heading(c@, line as nat) is None,
            tags_view(out@) + tags_from(c@, i as int, line as nat) == line_tags(c@, line as nat),
        decreases c@.len() - i,
    {
        if c[i] != '#' {
            i += 1;
            continue;
        }
        let ok = i == 0 || {
            let p = c[i - 1];
            p == ' ' || p == '\t' || p == '(' || p == '[' || p == '>' || p == '-' || p == '*' || p
                == ',' || p == ';' || p == ':'
        };
        if !ok {
            i += 1;
            continue;
        }
        let start = i + 1;
        let mut end = start;
        proof {
            lemma_tag_run(c@, start as int);
        }
        while end < c.len() && is_tag_char_exec(c[end])
            invariant
                start <= end <= c@.len(),
                tag_run(c@, start as int) == (end - start) + tag_run(c@, end as int),
            decreases c@.len() - end,
        {
            end += 1;
        }
        if end == start {
            i += 1;
            continue;
        }
        let raw = slice_of(c, start, end);
        let name = trim_end_char_vec(raw.as_slice(), '/');
        let ghost before = tags_view(out@);
        if tag_name_ok_exec(name.as_slice()) {
            let t = TagRef { name: string_of(name.as_slice()), line };
            out.push(t);
            assert(tags_view(out@) =~= before + seq![t@]);
        } else {
            assert(tags_view(out@) =~= before + Seq::<SpecTag>::empty());
        }
        assert(tags_view(out@) + tags_from(c@, end as int, line as nat) =~= before + tags_from(
            c@,
            i as int,
            line as nat,
        ));
        i = end;
    }
    assert(tags_view(out@) + tags_from(c@, i as int, line as nat) =~= tags_view(out@));
    out
}

// ---------------------------------------------------------------------------
// the whole body
// ---------------------------------------------------------------------------

pub open spec fn empty_scan() -> SpecScan {
    SpecScan { links: seq![], tags: seq![], headings: seq![], block_ids: seq![] }
}

/// What one line outside code fences contributes.
pub open spec fn scan_line(acc: SpecScan, raw: Seq<char>, line: nat) -> SpecScan {
    let m = mask_inline_code(raw);
    SpecScan {
        headings: acc.headings + opt_seq(parse_heading(m, line)),
        block_ids: acc.block_ids + opt_seq(parse_block_id(m)),
        links: acc.links + wikilinks_from(m, 0, line) + markdown_links_from(m, 0, line),
        tags: acc.tags + line_tags(m, line),
    }
}

/// Whether a line opens or closes a fence: up to three spaces of indent, then
/// a fence marker.
pub open spec fn line_fence(raw: Seq<char>) -> Option<(char, nat)> {
    if byte_len(raw.subrange(0, skip_ws(raw, 0))) < 4 {
        fence_marker(trim_start(raw))
    } else {
        None
    }
}

pub fn line_fence_exec(raw: &[char]) -> (r: Option<(char, usize)>)
    ensures
        match (r, line_fence(raw@)) {
            (Some((c, n)), Some((c2, n2))) => c == c2 && n == n2,
            (None, None) => true,
            _ => false,
        },
{
    if indent_width(raw) < 4 {
        let t = trim_start_vec(raw);
        fence_marker_exec(t.as_slice())
    } else {
        None
    }
}

/// The characters of a line that lie in a closed inline code span, as far as
/// masking shows them: each one that masking turns into spaces (a span's own
/// spaces stay unmarked, but a span always begins and ends with a marked
/// backtick).
pub open spec fn code_span_flags(c: Seq<char>) -> Seq<bool> {
    Seq::new(c.len(), |k: int| mask_from(c, 0, c)[k] != c[k])
}

pub fn code_span_flags_exec(line: &[char]) -> (r: Vec<bool>)
    ensures
        r@ == code_span_flags(line@),
{
    let blanks = blank_inline_code(line);
    proof {
        lemma_mask_shape(line@, 0, line@);
    }
    let mut out: Vec<bool> = Vec::new();
    let mut k: usize = 0;
    while k < line.len()
        invariant
            k <= line@.len(),
            blanks@ == mask_from(line@, 0, line@),
            blanks@.len() == line@.len(),
            out@ =~= code_span_flags(line@).subrange(0, k as int),
        decreases line@.len() - k,
    {
        out.push(blanks[k] != line[k]);
        k += 1;
    }
    out
}

/// Lines `i..` of a body, with `fence` the currently open code fence.
pub open spec fn scan_lines(ls: Seq<Seq<char>>, i: int, fence: Option<(char, nat)>, acc: SpecScan) -> SpecScan
    decreases ls.len() - i,
{
    if i < 0 || i >= ls.len() {
        acc
    } else {
        match line_fence(ls[i]) {
            Some(marker) => match fence {
                Some(open) => if open.0 == marker.0 && marker.1 >= open.1 {
                    scan_lines(ls, i + 1, None, acc)
                } else {
                    scan_lines(ls, i + 1, fence, acc)
                },
                None => scan_lines(ls, i + 1, Some(marker), acc),
            },
            None => if fence is Some {
                scan_lines(ls, i + 1, fence, acc)
            } else {
                scan_lines(ls, i + 1, None, scan_line(acc, ls[i], (i + 1) as nat))
            },
        }
    }
}

/// Every structural reference in a note body.
pub open spec fn spec_scan(body: Seq<char>) -> SpecScan {
    scan_lines(lines(body), 0, None, empty_scan())
}

// ---------------------------------------------------------------------------
// line numbers
// ---------------------------------------------------------------------------

/// Every heading, link and tag of a scan on a line from `lo` to `hi`.
pub open spec fn lines_within(sc: SpecScan, lo: nat, hi: nat) -> bool {
    &&& forall|k: int| 0 <= k < sc.headings.len() ==> lo <= (#[trigger] sc.headings[k]).line <= hi
    &&& forall|k: int| 0 <= k < sc.links.len() ==> lo <= (#[trigger] sc.links[k]).line <= hi
    &&& forall|k: int| 0 <= k < sc.tags.len() ==> lo <= (#[trigger] sc.tags[k]).line <= hi
}

proof fn lemma_wikilinks_line(c: Seq<char>, i: int, line: nat)
    ensures
        forall|k: int| 0 <= k < wikilinks_from(c, i, line).len() ==> (#[trigger] wikilinks_from(c, i, line)[k]).line == line,
    decreases c.len() - i,
{
    if 0 <= i && i + 1 < c.len() {
        if c[i] != '[' || c[i + 1] != '[' {
            lemma_wikilinks_line(c, i + 1, line);
        } else {
            lemma_find_close(c, i + 2);
            match find_close(c, i + 2) {
                None => {
                    lemma_wikilinks_line(c, i + 1, line);
                },
                Some(end) => {
                    lemma_wikilinks_line(c, end + 2, line);
                    let head = opt_seq(parse_wikilink(c.subrange(i + 2, end), i > 0 && c[i - 1] == '!', line));
                    let rest = wikilinks_from(c, end + 2, line);
                    assert forall|k: int| 0 <= k < (head + rest).len() implies (#[trigger] (head + rest)[k]).line == line by {
                        if k >= head.len() {
                            assert((head + rest)[k] == rest[k - head.len()]);
                        }
                    }
                },
            }
        }
    }
}

proof fn lemma_markdown_links_line(c: Seq<char>, i: int, line: nat)
    ensures
        forall|k: int|
            0 <= k < markdown_links_from(c, i, line).len() ==> (#[trigger] markdown_links_from(c, i, line)[k]).line == line,
    decreases c.len() - i,
{
    if 0 <= i < c.len() {
        if c[i] != '[' {
            lemma_markdown_links_line(c, i + 1, line);
        } else if i + 1 < c.len() && c[i + 1] == '[' {
            lemma_markdown_links_line(c, i + 2, line);
        } else {
            let le = find_from(c, ']', i + 1);
            lemma_find_from(c, ']', i + 1);
            if le < c.len() {
                if le + 1 >= c.len() || c[le + 1] != '(' {
                    lemma_markdown_links_line(c, le + 1, line);
                } else {
                    lemma_matching_paren(c, le + 2, 1);
                    match matching_paren(c, le + 2, 1) {
                        None => {
                            lemma_markdown_links_line(c, le + 1, line);
                        },
                        Some(te) => {
                            lemma_markdown_links_line(c, te + 1, line);
                            let head = opt_seq(
                                parse_markdown_link(
                                    c.subrange(le + 2, te),
                                    c.subrange(i + 1, le),
                                    i > 0 && c[i - 1] == '!',
                                    line,
                                ),
                            );
                            let rest = markdown_links_from(c, te + 1, line);
                            assert forall|k: int| 0 <= k < (head + rest).len() implies (#[trigger] (head
                                + rest)[k]).line == line by {
                                if k >= head.len() {
                                    assert((head + rest)[k] == rest[k - head.len()]);
                                }
                            }
                        },
                    }
                }
            }
        }
    }
}

proof fn lemma_tags_line(c: Seq<char>, i: int, line: nat)
    ensures
        forall|k: int| 0 <= k < tags_from(c, i, line).len() ==> (#[trigger] tags_from(c, i, line)[k]).line == line,
    decreases c.len() - i,
{
    if 0 <= i < c.len() {
        if c[i] != '#' || !(i == 0 || tag_boundary(c[i - 1])) {
            lemma_tags_line(c, i + 1, line);
            assert(tags_from(c, i, line) == tags_from(c, i + 1, line));
        } else {
            lemma_tag_run(c, i + 1);
            let n = tag_run(c, i + 1);
            if n == 0 {
                lemma_tags_line(c, i + 1, line);
                assert(tags_from(c, i, line) == tags_from(c, i + 1, line));
            } else {
                lemma_tags_line(c, i + 1 + n, line);
                let name = trim_end_char(c.subrange(i + 1, i + 1 + n), '/');
                let head = if tag_name_ok(name) {
                    seq![SpecTag { name, line }]
                } else {
                    seq![]
                };
                let rest = tags_from(c, i + 1 + n, line);
                assert(tags_from(c, i, line) == head + rest);
                assert forall|k: int| 0 <= k < (head + rest).len() implies (#[trigger] (head + rest)[k]).line == line by {
                    if k >= head.len() {
                        assert((head + rest)[k] == rest[k - head.len()]);
                    }
                }
            }
        }
    }
}

proof fn lemma_scan_line_within(acc: SpecScan, raw: Seq<char>, line: nat, hi: nat)
    requires
        lines_within(acc, 1, hi),
        1 <= line <= hi,
    ensures
        lines_within(scan_line(acc, raw, line), 1, hi),
{
    let m = mask_inline_code(raw);
    let r = scan_line(acc, raw, line);
    lemma_wikilinks_line(m, 0, line);
    lemma_markdown_links_line(m, 0, line);
    lemma_tags_line(m, 0, line);
    let hs = opt_seq(parse_heading(m, line));
    assert forall|k: int| 0 <= k < r.headings.len() implies 1 <= (#[trigger] r.headings[k]).line <= hi by {
        if k >= acc.headings.len() {
            assert(r.headings[k] == hs[k - acc.headings.len()]);
        }
    }
    let wl = wikilinks_from(m, 0, line);
    let ml = markdown_links_from(m, 0, line);
    assert forall|k: int| 0 <= k < r.links.len() implies 1 <= (#[trigger] r.links[k]).line <= hi by {
        if k >= acc.links.len() + wl.len() {
            assert(r.links[k] == ml[k - acc.links.len() - wl.len()]);
        } else if k >= acc.links.len() {
            assert(r.links[k] == wl[k - acc.links.len()]);
        }
    }
    let lt = line_tags(m, line);
    assert forall|k: int| 0 <= k < r.tags.len() implies 1 <= (#[trigger] r.tags[k]).line <= hi by {
        if k >= acc.tags.len() {
            assert(r.tags[k] == lt[k - acc.tags.len()]);
        }
    }
}

proof fn lemma_scan_lines_within(ls: Seq<Seq<char>>, i: int, fence: Option<(char, nat)>, acc: SpecScan)
    requires
        0 <= i <= ls.len(),
        lines_within(acc, 1, ls.len()),
    ensures
        lines_within(scan_lines(ls, i, fence, acc), 1, ls.len()),
    decreases ls.len() - i,
{
    if i < ls.len() {
        match line_fence(ls[i]) {
            Some(marker) => match fence {
                Some(open) => if open.0 == marker.0 && marker.1 >= open.1 {
                    lemma_scan_lines_within(ls, i + 1, None, acc);
                } else {
                    lemma_scan_lines_within(ls, i + 1, fence, acc);
                },
                None => {
                    lemma_scan_lines_within(ls, i + 1, Some(marker), acc);
                },
            },
            None => if fence is Some {
                lemma_scan_lines_within(ls, i + 1, fence, acc);
            } else {
                lemma_scan_line_within(acc, ls[i], (i + 1) as nat, ls.len());
                lemma_scan_lines_within(ls, i + 1, None, scan_line(acc, ls[i], (i + 1) as nat));
            },
        }
    }
}

/// Line numbers are 1-based and within the body: every heading, link and
/// tag a scan finds lies on one of the body's lines.
pub proof fn lemma_scan_lines_in_body(body: Seq<char>)
    ensures
        lines_within(spec_scan(body), 1, lines(body).len()),
{
    lemma_scan_lines_within(lines(body), 0, None, empty_scan());
}


/// Walk a note body and pull out every structural reference it contains.
pub fn scan(body: &str) -> (r: Scan)
    ensures
        r@ == spec_scan(body@),
{
    let chars = chars_of(body);
    scan_chars(chars.as_slice())
}

pub fn scan_chars(body: &[char]) -> (r: Scan)
    ensures
        r@ == spec_scan(body@),
{
    let ls = split_lines(body);
    let ghost lv = ls@.map_values(|l: Vec<char>| l@);
    let mut scan = Scan { links: Vec::new(), tags: Vec::new(), headings: Vec::new(), block_ids: Vec::new() };
    let mut fence: Option<(char, usize)> = None;
    let mut index: usize = 0;
    assert(scan@ =~= empty_scan());
    while index < ls.len()
        invariant
            index <= ls@.len(),
            lv == ls@.map_values(|l: Vec<char>| l@),
            lv == lines(body@),
            scan_lines(
                lv,
                index as int,
                match fence {
                    Some((c, n)) => Some((c, n as nat)),
                    None => None,
                },
                scan@,
            ) == spec_scan(body@),
        decreases ls@.len() - index,
    {
        let raw = &ls[index];
        assert(raw@ == lv[index as int]);
        let line_no = index + 1;
        let w = indent_width(raw.as_slice());
        let marker = if w < 4 {
            let t = trim_start_vec(raw.as_slice());
            fence_marker_exec(t.as_slice())
        } else {
            None
        };
        match marker {
            Some((mc, ml)) => {
                match fence {
                    Some((fc, fl)) => {
                        if fc == mc && ml >= fl {
                            fence = None;
                        }
                    },
                    None => {
                        fence = Some((mc, ml));
                    },
                }
                index += 1;
                continue;
            },
            None => {},
        }
        if fence.is_some() {
            index += 1;
            continue;
        }
        let line = mask_inline_code_exec(raw.as_slice());
        let ghost before = scan@;
        match parse_heading_exec(line.as_slice(), line_no) {
            Some(h) => {
                scan.headings.push(h);
            },
            None => {},
        }
        match parse_block_id_exec(line.as_slice()) {
            Some(id) => {
                scan.block_ids.push(id);
            },
            None => {},
        }
        let mut wl = collect_wikilinks(line.as_slice(), line_no);
        let mut ml = collect_markdown_links(line.as_slice(), line_no);
        let mut tl = collect_tags(line.as_slice(), line_no);
        let ghost wv = links_view(wl@);
        let ghost mv = links_view(ml@);
        let ghost tv = tags_view(tl@);
        let ghost l0 = scan.links@;
        let ghost t0 = scan.tags@;
        scan.links.append(&mut wl);
        scan.links.append(&mut ml);
        scan.tags.append(&mut tl);
        assert(links_view(scan.links@) =~= links_view(l0) + wv + mv);
        assert(tags_view(scan.tags@) =~= tags_view(t0) + tv);
        assert(headings_view(scan.headings@) =~= before.headings + opt_seq(
            parse_heading(line@, line_no as nat),
        ));
        assert(strings_view(scan.block_ids@) =~= before.block_ids + opt_seq(
            parse_block_id(line@),
        ));
        assert(scan@ == scan_line(before, raw@, line_no as nat));
        index += 1;
    }
    scan
}

/// Convenience for callers that only need "what does this note point at".
pub fn link_targets(body: &str) -> (r: Vec<String>)
    ensures
        crate::sorting::strictly_sorted(strings_view(r@)),
        forall|t: Seq<char>|
            strings_view(r@).contains(t) <==> exists|k: int|
                0 <= k < spec_scan(body@).links.len() && #[trigger] spec_scan(body@).links[k].target
                    == t,
{
    let s = scan(body);
    let mut targets: Vec<String> = Vec::new();
    let mut k: usize = 0;
    while k < s.links.len()
        invariant
            k <= s.links@.len(),
            s@ == spec_scan(body@),
            strings_view(targets@) =~= links_view(s.links@).subrange(0, k as int).map_values(
                |l: SpecLink| l.target,
            ),
        decreases s.links@.len() - k,
    {
        let ghost old_t = strings_view(targets@);
        let t = s.links[k].target.clone();
        targets.push(t);
        proof {
            let lv = links_view(s.links@);
            assert(strings_view(targets@) =~= old_t.push(lv[k as int].target));
            assert(lv.subrange(0, k + 1).map_values(|l: SpecLink| l.target) =~= lv.subrange(
                0,
                k as int,
            ).map_values(|l: SpecLink| l.target).push(lv[k as int].target));
        }
        k += 1;
    }
    let r = crate::sorting::sorted_unique(targets);
    proof {
        let tv = links_view(s.links@).map_values(|l: SpecLink| l.target);
        assert(strings_view(targets@) =~= tv);
        assert forall|t: Seq<char>|
            strings_view(r@).contains(t) <==> exists|k: int|
                0 <= k < spec_scan(body@).links.len() && #[trigger] spec_scan(body@).links[k].target
                    == t by {
            if strings_view(r@).contains(t) {
                let j = choose|j: int| 0 <= j < tv.len() && tv[j] == t;
                assert(spec_scan(body@).links[j].target == t);
            }
            if exists|k: int|
                0 <= k < spec_scan(body@).links.len() && #[trigger] spec_scan(body@).links[k].target
                    == t {
                let j = choose|j: int|
                    0 <= j < spec_scan(body@).links.len() && #[trigger] spec_scan(
                        body@,
                    ).links[j].target == t;
                assert(tv[j] == t);
            }
        }
    }
    r
}


// ---------------------------------------------------------------------------
// a line holding one tag
// ---------------------------------------------------------------------------

pub proof fn lemma_mask_from_plain(c: Seq<char>, i: int, out: Seq<char>)
    requires
        0 <= i,
        forall|k: int| 0 <= k < c.len() ==> #[trigger] c[k] != '`',
    ensures
        mask_from(c, i, out) == out,
    decreases c.len() - i,
{
    if i < c.len() {
        lemma_mask_from_plain(c, i + 1, out);
    }
}

proof fn lemma_widen_same(c: Seq<char>, n: int)
    requires
        0 <= n <= c.len(),
    ensures
        widen(c, c, n) == c.subrange(0, n),
    decreases n,
{
    if n > 0 {
        lemma_widen_same(c, n - 1);
        assert(c.subrange(0, n - 1) + seq![c[n - 1]] =~= c.subrange(0, n));
    } else {
        assert(c.subrange(0, 0) =~= Seq::<char>::empty());
    }
}

proof fn lemma_tag_run_all(c: Seq<char>, i: int)
    requires
        0 <= i <= c.len(),
        forall|k: int| i <= k < c.len() ==> is_tag_char(#[trigger] c[k]),
    ensures
        tag_run(c, i) == c.len() - i,
    decreases c.len() - i,
{
    if i < c.len() {
        lemma_tag_run_all(c, i + 1);
    }
}

proof fn lemma_no_newline_found(s: Seq<char>, i: int)
    requires
        0 <= i <= s.len(),
        forall|k: int| 0 <= k < s.len() ==> #[trigger] s[k] != '\n',
    ensures
        find_from(s, '\n', i) == s.len(),
    decreases s.len() - i,
{
    if i < s.len() {
        lemma_no_newline_found(s, i + 1);
    }
}

/// A tag's name runs over every character after the `#` that is
/// alphanumeric, `-`, `_` or `/` (a trailing `/` dropped): a body that is a
/// `#` and such a name, not made of digits only, holds exactly that one tag,
/// on line 1.
pub proof fn lemma_scan_tag_line(name: Seq<char>)
    requires
        name.len() > 0,
        forall|k: int|
            0 <= k < name.len() ==> (alphanumeric(#[trigger] name[k]) || name[k] == '-' || name[k] == '_'
                || name[k] == '/'),
        forall|k: int|
            0 <= k < name.len() ==> #[trigger] name[k] != '#' && name[k] != '`' && name[k] != '\n'
                && name[k] != ' ',
        name.last() != '/',
        exists|k: int| 0 <= k < name.len() && !numeric(#[trigger] name[k]),
    ensures
        spec_scan(seq!['#'] + name).tags == seq![SpecTag { name, line: 1 }],
{
    let l = seq!['#'] + name;
    assert forall|k: int| 0 <= k < l.len() implies #[trigger] l[k] != '\n' && l[k] != '`' by {
        if k > 0 {
            assert(l[k] == name[k - 1]);
        }
    }
    lemma_no_newline_found(l, 0);
    assert(l.subrange(0, l.len() as int) =~= l);
    assert(lines(l) == seq![l]);
    assert(!is_ws('#'));
    assert(skip_ws(l, 0) == 0);
    assert(l.subrange(0, 0) =~= Seq::<char>::empty());
    assert(trim_start(l) =~= l);
    assert(line_fence(l) is None);
    lemma_mask_from_plain(l, 0, l);
    lemma_widen_same(l, l.len() as int);
    assert(mask_inline_code(l) == l);
    assert(l[1] == name[0]);
    assert(run_len(l, 1, '#') == 0);
    assert(run_len(l, 0, '#') == 1);
    assert(l.subrange(1, l.len() as int) =~= name);
    assert(parse_heading(l, 1) is None);
    assert forall|k: int| 1 <= k < l.len() implies is_tag_char(#[trigger] l[k]) by {
        assert(l[k] == name[k - 1]);
    }
    lemma_tag_run_all(l, 1);
    assert(l.subrange(1, 1 + name.len() as int) =~= name);
    assert(back_char(name, '/', name.len() as int) == name.len());
    assert(trim_end_char(name, '/') =~= name);
    assert(tag_name_ok(name));
    assert(tags_from(l, l.len() as int, 1) =~= Seq::<SpecTag>::empty());
    assert(line_tags(l, 1) =~= seq![SpecTag { name, line: 1 }]);
    assert(scan_lines(lines(l), 1, None, scan_line(empty_scan(), l, 1)) == scan_line(empty_scan(), l, 1));
    assert(empty_scan().tags + seq![SpecTag { name, line: 1 }] =~= seq![SpecTag { name, line: 1 }]);
}

proof fn lemma_tags_skip(c: Seq<char>, i: int, j: int, line: nat)
    requires
        0 <= i <= j <= c.len(),
        forall|k: int| i <= k < j ==> #[trigger] c[k] != '#',
    ensures
        tags_from(c, i, line) == tags_from(c, j, line),
    decreases j - i,
{
    if i < j {
        lemma_tags_skip(c, i + 1, j, line);
    }
}

/// A tag may follow text on its line: after any text holding no `#`, a `#`
/// that opens the line or follows a space, tab, `(`, `[`, `>`, `-`, `*`, `,`,
/// `;` or `:` starts a tag whose name runs over every following character that
/// is alphanumeric, `-`, `_` or `/` (a trailing `/` dropped), and that tag,
/// unless made of digits only, is the only one the line holds.
pub proof fn lemma_scan_tag_after(pre: Seq<char>, name: Seq<char>)
    requires
        pre.len() == 0 || tag_boundary(pre.last()),
        forall|k: int|
            0 <= k < pre.len() ==> #[trigger] pre[k] != '#' && pre[k] != '`' && pre[k] != '\n' && pre[k] != '~',
        name.len() > 0,
        forall|k: int|
            0 <= k < name.len() ==> (alphanumeric(#[trigger] name[k]) || name[k] == '-' || name[k] == '_'
                || name[k] == '/'),
        forall|k: int|
            0 <= k < name.len() ==> #[trigger] name[k] != '#' && name[k] != '`' && name[k] != '\n'
                && name[k] != ' ',
        name.last() != '/',
        exists|k: int| 0 <= k < name.len() && !numeric(#[trigger] name[k]),
    ensures
        spec_scan(pre + seq!['#'] + name).tags == seq![SpecTag { name, line: 1 }],
{
    let l = pre + seq!['#'] + name;
    let p = pre.len() as int;
    assert forall|k: int| 0 <= k < l.len() implies #[trigger] l[k] != '\n' && l[k] != '`' by {
        if k < p {
            assert(l[k] == pre[k]);
        } else if k > p {
            assert(l[k] == name[k - p - 1]);
        }
    }
    lemma_no_newline_found(l, 0);
    assert(l.subrange(0, l.len() as int) =~= l);
    assert(lines(l) == seq![l]);
    crate::text::lemma_skip_ws_bounds(l, 0);
    let sk = skip_ws(l, 0);
    assert(!is_ws('#'));
    if sk > p {
        assert(is_ws(l[p]));
    }
    assert(sk <= p);
    let t = trim_start(l);
    assert(t[0] == l[sk]);
    assert(l[sk] != '`' && l[sk] != '~') by {
        if sk < p {
            assert(l[sk] == pre[sk]);
        }
    }
    assert(run_len(t, 0, '`') == 0);
    assert(run_len(t, 0, '~') == 0);
    assert(fence_marker(t) is None);
    assert(line_fence(l) is None);
    lemma_mask_from_plain(l, 0, l);
    lemma_widen_same(l, l.len() as int);
    assert(mask_inline_code(l) == l);
    if sk < p {
        assert(l[sk] == pre[sk]);
        assert(run_len(t, 0, '#') == 0);
    } else {
        assert(t =~= seq!['#'] + name);
        assert(t[1] == name[0]);
        assert(run_len(t, 1, '#') == 0);
        assert(run_len(t, 0, '#') == 1);
        assert(t.subrange(1, t.len() as int) =~= name);
    }
    assert(parse_heading(l, 1) is None);
    assert forall|k: int| 0 <= k < p implies #[trigger] l[k] != '#' by {
        assert(l[k] == pre[k]);
    }
    lemma_tags_skip(l, 0, p, 1);
    assert forall|k: int| p + 1 <= k < l.len() implies is_tag_char(#[trigger] l[k]) by {
        assert(l[k] == name[k - p - 1]);
    }
    lemma_tag_run_all(l, p + 1);
    assert(l.subrange(p + 1, p + 1 + name.len() as int) =~= name);
    assert(back_char(name, '/', name.len() as int) == name.len());
    assert(trim_end_char(name, '/') =~= name);
    assert(tag_name_ok(name));
    if p > 0 {
        assert(l[p - 1] == pre.last());
    }
    assert(tags_from(l, l.len() as int, 1) =~= Seq::<SpecTag>::empty());
    assert(tags_from(l, p, 1) =~= seq![SpecTag { name, line: 1 }]);
    assert(line_tags(l, 1) =~= seq![SpecTag { name, line: 1 }]);
    assert(scan_lines(lines(l), 1, None, scan_line(empty_scan(), l, 1)) == scan_line(empty_scan(), l, 1));
    assert(empty_scan().tags + seq![SpecTag { name, line: 1 }] =~= seq![SpecTag { name, line: 1 }]);
}
} // verus!
