//! Vault-relative path text: splitting at `/`, joining relative targets,
//! note extensions, and rewriting wikilink targets inside a body.

use vstd::prelude::*;

use crate::note::after_last;
use crate::links::{code_span_flags, line_fence};
use crate::text::{
    byte_len, char_width, find_char, find_from, lemma_find_from, line_text, slice_of, trim, trim_vec,
    vec_eq,
};

verus! {

// ---------------------------------------------------------------------------
// splitting and joining
// ---------------------------------------------------------------------------

/// `str::split(c)` from position `i`: the pieces between separators, empty
/// ones included, always at least one.
pub open spec fn pieces_from(s: Seq<char>, c: char, i: int) -> Seq<Seq<char>>
    decreases s.len() - i,
{
    if i < 0 || i > s.len() {
        seq![]
    } else {
        let e = find_from(s, c, i);
        if e >= s.len() {
            seq![s.subrange(i, s.len() as int)]
        } else {
            proof {
                lemma_find_from(s, c, i);
            }
            seq![s.subrange(i, e)] + pieces_from(s, c, e + 1)
        }
    }
}

pub open spec fn pieces(s: Seq<char>, c: char) -> Seq<Seq<char>> {
    pieces_from(s, c, 0)
}

/// The pieces joined with `/` between them.
pub open spec fn join_slash(parts: Seq<Seq<char>>) -> Seq<char>
    decreases parts.len(),
{
    if parts.len() == 0 {
        seq![]
    } else if parts.len() == 1 {
        parts[0]
    } else {
        join_slash(parts.drop_last()) + seq!['/'] + parts.last()
    }
}

pub open spec fn dot() -> Seq<char> {
    seq!['.']
}

pub open spec fn dot_dot() -> Seq<char> {
    seq!['.', '.']
}

/// Apply the segments `segs[k..]` to the directory stack `parts`: empty
/// segments and `.` stay, `..` goes up (failing above the top), anything else
/// goes down.
pub open spec fn walk(parts: Seq<Seq<char>>, segs: Seq<Seq<char>>, k: int) -> Option<Seq<Seq<char>>>
    decreases segs.len() - k,
{
    if k < 0 || k >= segs.len() {
        Some(parts)
    } else if segs[k].len() == 0 || segs[k] == dot() {
        walk(parts, segs, k + 1)
    } else if segs[k] == dot_dot() {
        if parts.len() == 0 {
            None
        } else {
            walk(parts.drop_last(), segs, k + 1)
        }
    } else {
        walk(parts.push(segs[k]), segs, k + 1)
    }
}

/// The directory stack of a base directory.
pub open spec fn base_parts(base: Seq<char>) -> Seq<Seq<char>> {
    if base.len() == 0 {
        seq![]
    } else {
        pieces(base, '/')
    }
}

/// A possibly-dotted relative target joined onto a directory; `None` when it
/// climbs above the top or names nothing.
pub open spec fn join_relative_spec(base: Seq<char>, target: Seq<char>) -> Option<Seq<char>> {
    match walk(base_parts(base), pieces(target, '/'), 0) {
        Some(parts) => if parts.len() == 0 {
            None
        } else {
            Some(join_slash(parts))
        },
        None => None,
    }
}

/// Walking never puts a `..` or `.` segment, or an empty one, on the stack:
/// what the stack holds came from the base or is an ordinary target segment.
pub proof fn lemma_walk_ordinary(parts: Seq<Seq<char>>, segs: Seq<Seq<char>>, k: int)
    requires
        0 <= k,
        forall|i: int|
            0 <= i < parts.len() ==> (#[trigger] parts[i]).len() > 0 && parts[i] != dot()
                && parts[i] != dot_dot(),
    ensures
        walk(parts, segs, k) matches Some(r) ==> forall|i: int|
            0 <= i < r.len() ==> (#[trigger] r[i]).len() > 0 && r[i] != dot() && r[i] != dot_dot(),
    decreases segs.len() - k,
{
    if k < segs.len() {
        if segs[k].len() == 0 || segs[k] == dot() {
            lemma_walk_ordinary(parts, segs, k + 1);
        } else if segs[k] == dot_dot() {
            if parts.len() > 0 {
                lemma_walk_ordinary(parts.drop_last(), segs, k + 1);
            }
        } else {
            lemma_walk_ordinary(parts.push(segs[k]), segs, k + 1);
        }
    }
}

/// A target whose segments are all ordinary names joins onto any base: only
/// `..` can make the join fail, and only by climbing above the top.
pub proof fn lemma_walk_without_dot_dot(parts: Seq<Seq<char>>, segs: Seq<Seq<char>>, k: int)
    requires
        0 <= k,
        forall|i: int| k <= i < segs.len() ==> #[trigger] segs[i] != dot_dot(),
    ensures
        walk(parts, segs, k) is Some,
    decreases segs.len() - k,
{
    if k < segs.len() {
        if segs[k].len() == 0 || segs[k] == dot() {
            lemma_walk_without_dot_dot(parts, segs, k + 1);
        } else {
            lemma_walk_without_dot_dot(parts.push(segs[k]), segs, k + 1);
        }
    }
}

pub fn pieces_exec(s: &[char], c: char) -> (r: Vec<Vec<char>>)
    ensures
        r@.map_values(|p: Vec<char>| p@) == pieces(s@, c),
{
    let mut out: Vec<Vec<char>> = Vec::new();
    let mut i: usize = 0;
    loop
        invariant
            i <= s@.len(),
            out@.map_values(|p: Vec<char>| p@) + pieces_from(s@, c, i as int) == pieces(s@, c),
        decreases s@.len() - i,
    {
        let e = find_char(s, c, i);
        let piece = slice_of(s, i, e);
        let ghost before = out@.map_values(|p: Vec<char>| p@);
        out.push(piece);
        assert(out@.map_values(|p: Vec<char>| p@) =~= before.push(piece@));
        if e >= s.len() {
            assert(out@.map_values(|p: Vec<char>| p@) =~= before + pieces_from(s@, c, i as int));
            return out;
        }
        assert(out@.map_values(|p: Vec<char>| p@) + pieces_from(s@, c, e + 1) =~= before
            + pieces_from(s@, c, i as int));
        i = e + 1;
    }
}

fn is_dot(t: &[char]) -> (r: bool)
    ensures
        r == (t@ == dot()),
{
    let r = t.len() == 1 && t[0] == '.';
    assert(r ==> t@ =~= dot());
    r
}

fn is_dot_dot(t: &[char]) -> (r: bool)
    ensures
        r == (t@ == dot_dot()),
{
    let r = t.len() == 2 && t[0] == '.' && t[1] == '.';
    assert(r ==> t@ =~= dot_dot());
    r
}

pub fn join_slash_exec(parts: &Vec<Vec<char>>) -> (r: Vec<char>)
    ensures
        r@ == join_slash(parts@.map_values(|p: Vec<char>| p@)),
{
    let ghost pv = parts@.map_values(|p: Vec<char>| p@);
    let mut out: Vec<char> = Vec::new();
    let mut k: usize = 0;
    while k < parts.len()
        invariant
            k <= parts@.len(),
            pv == parts@.map_values(|p: Vec<char>| p@),
            out@ == join_slash(pv.subrange(0, k as int)),
        decreases parts@.len() - k,
    {
        let ghost before = out@;
        if k > 0 {
            out.push('/');
        }
        push_all(&mut out, parts[k].as_slice());
        proof {
            assert(pv.subrange(0, k + 1).drop_last() =~= pv.subrange(0, k as int));
            assert(pv.subrange(0, k + 1).last() == parts@[k as int]@);
            if k == 0 {
                assert(pv.subrange(0, 1)[0] == parts@[0]@);
                assert(out@ =~= parts@[0]@);
            } else {
                assert(out@ =~= before + seq!['/'] + parts@[k as int]@);
            }
        }
        k += 1;
    }
    assert(pv.subrange(0, k as int) =~= pv);
    out
}

/// Join a possibly-dotted relative target onto a directory, refusing escapes.
pub fn join_relative(base_dir: &[char], target: &[char]) -> (r: Option<Vec<char>>)
    ensures
        match r {
            Some(p) => join_relative_spec(base_dir@, target@) == Some(p@),
            None => join_relative_spec(base_dir@, target@) is None,
        },
{
    let mut parts: Vec<Vec<char>> = if base_dir.len() == 0 {
        Vec::new()
    } else {
        pieces_exec(base_dir, '/')
    };
    assert(parts@.map_values(|p: Vec<char>| p@) =~= base_parts(base_dir@));
    let segs = pieces_exec(target, '/');
    let ghost sv = segs@.map_values(|p: Vec<char>| p@);
    let mut k: usize = 0;
    while k < segs.len()
        invariant
            k <= segs@.len(),
            sv == segs@.map_values(|p: Vec<char>| p@),
            sv == pieces(target@, '/'),
            walk(parts@.map_values(|p: Vec<char>| p@), sv, k as int) == walk(
                base_parts(base_dir@),
                sv,
                0,
            ),
        decreases segs@.len() - k,
    {
        let seg = &segs[k];
        assert(sv[k as int] == seg@);
        let ghost pv = parts@.map_values(|p: Vec<char>| p@);
        if seg.len() == 0 || is_dot(seg.as_slice()) {
        } else if is_dot_dot(seg.as_slice()) {
            if parts.len() == 0 {
                return None;
            }
            parts.pop();
            assert(parts@.map_values(|p: Vec<char>| p@) =~= pv.drop_last());
        } else {
            let copy = slice_of(seg.as_slice(), 0, seg.len());
            assert(copy@ =~= seg@);
            parts.push(copy);
            assert(parts@.map_values(|p: Vec<char>| p@) =~= pv.push(seg@));
        }
        k += 1;
    }
    if parts.len() == 0 {
        return None;
    }
    Some(join_slash_exec(&parts))
}

// ---------------------------------------------------------------------------
// directories, depth, extensions
// ---------------------------------------------------------------------------

/// The directory part of a path: what precedes its last `/`, or nothing.
pub open spec fn dir_of(p: Seq<char>) -> Seq<char> {
    let a = after_last(p, '/', p.len() as int);
    if a == 0 {
        seq![]
    } else {
        p.subrange(0, a - 1)
    }
}

pub proof fn lemma_after_last(s: Seq<char>, c: char, j: int)
    requires
        0 <= j <= s.len(),
    ensures
        0 <= after_last(s, c, j) <= j,
        after_last(s, c, j) > 0 ==> s[after_last(s, c, j) - 1] == c,
        forall|k: int| after_last(s, c, j) <= k < j ==> #[trigger] s[k] != c,
    decreases j,
{
    if j > 0 && s[j - 1] != c {
        lemma_after_last(s, c, j - 1);
    }
}

pub fn after_last_exec(s: &[char], c: char) -> (r: usize)
    ensures
        r == after_last(s@, c, s@.len() as int),
        r <= s@.len(),
{
    let mut j = s.len();
    while j > 0 && s[j - 1] != c
        invariant
            j <= s@.len(),
            after_last(s@, c, j as int) == after_last(s@, c, s@.len() as int),
        decreases j,
    {
        j -= 1;
    }
    j
}

pub fn dir_of_exec(p: &[char]) -> (r: Vec<char>)
    ensures
        r@ == dir_of(p@),
{
    let a = after_last_exec(p, '/');
    if a == 0 {
        Vec::new()
    } else {
        slice_of(p, 0, a - 1)
    }
}

/// Number of `c`s in `s`.
pub open spec fn count_char(s: Seq<char>, c: char) -> nat
    decreases s.len(),
{
    if s.len() == 0 {
        0
    } else {
        count_char(s.drop_last(), c) + if s.last() == c {
            1nat
        } else {
            0nat
        }
    }
}

pub fn count_char_exec(s: &[char], c: char) -> (r: usize)
    ensures
        r == count_char(s@, c),
{
    let mut n: usize = 0;
    let mut k: usize = 0;
    while k < s.len()
        invariant
            k <= s@.len(),
            n == count_char(s@.subrange(0, k as int), c),
            n <= k,
        decreases s@.len() - k,
    {
        assert(s@.subrange(0, k + 1).drop_last() =~= s@.subrange(0, k as int));
        if s[k] == c {
            n += 1;
        }
        k += 1;
    }
    assert(s@.subrange(0, k as int) =~= s@);
    n
}

/// Byte length of the UTF-8 encoding (`str::len`). Summed in a `u128`, which
/// four bytes per character of a slice cannot overflow.
pub fn utf8_len(s: &[char]) -> (r: u128)
    ensures
        r == byte_len(s@),
{
    let n = s.len();
    let mut w: u128 = 0;
    let mut k: usize = 0;
    while k < n
        invariant
            n == s@.len(),
            k <= n,
            w == byte_len(s@.subrange(0, k as int)),
            w <= 4 * k,
        decreases n - k,
    {
        let u = s[k] as u32;
        let cw: u128 = if u < 0x80 {
            1
        } else if u < 0x800 {
            2
        } else if u < 0x10000 {
            3
        } else {
            4
        };
        assert(s@.subrange(0, k + 1).drop_last() =~= s@.subrange(0, k as int));
        assert(s@.subrange(0, k + 1).last() == s@[k as int]);
        w = w + cw;
        k += 1;
    }
    assert(s@.subrange(0, k as int) =~= s@);
    w
}

pub open spec fn ext_md() -> Seq<char> {
    seq!['.', 'm', 'd']
}

pub open spec fn ext_markdown() -> Seq<char> {
    seq!['.', 'm', 'a', 'r', 'k', 'd', 'o', 'w', 'n']
}

pub open spec fn ext_mdx() -> Seq<char> {
    seq!['.', 'm', 'd', 'x']
}

pub open spec fn has_suffix(s: Seq<char>, x: Seq<char>) -> bool {
    s.len() >= x.len() && s.subrange(s.len() - x.len(), s.len() as int) == x
}

/// A path without its note extension (`.md`, `.markdown` or `.mdx`, tried in
/// that order).
pub open spec fn strip_note_ext_spec(p: Seq<char>) -> Seq<char> {
    if has_suffix(p, ext_md()) {
        p.subrange(0, p.len() - 3)
    } else if has_suffix(p, ext_markdown()) {
        p.subrange(0, p.len() - 9)
    } else if has_suffix(p, ext_mdx()) {
        p.subrange(0, p.len() - 4)
    } else {
        p
    }
}

fn has_suffix_exec(s: &[char], x: &[char]) -> (r: bool)
    ensures
        r == has_suffix(s@, x@),
{
    if s.len() < x.len() {
        return false;
    }
    let tail = slice_of(s, s.len() - x.len(), s.len());
    vec_eq(tail.as_slice(), x)
}

pub fn strip_note_ext(p: &[char]) -> (r: Vec<char>)
    ensures
        r@ == strip_note_ext_spec(p@),
{
    let md = ['.', 'm', 'd'];
    let markdown = ['.', 'm', 'a', 'r', 'k', 'd', 'o', 'w', 'n'];
    let mdx = ['.', 'm', 'd', 'x'];
    assert(md@ =~= ext_md());
    assert(markdown@ =~= ext_markdown());
    assert(mdx@ =~= ext_mdx());
    if has_suffix_exec(p, &md) {
        slice_of(p, 0, p.len() - 3)
    } else if has_suffix_exec(p, &markdown) {
        slice_of(p, 0, p.len() - 9)
    } else if has_suffix_exec(p, &mdx) {
        slice_of(p, 0, p.len() - 4)
    } else {
        slice_of(p, 0, p.len())
    }
}

// ---------------------------------------------------------------------------
// wikilink rewriting
// ---------------------------------------------------------------------------

/// Position of the `]]` that closes a wikilink whose inside starts at `i`,
/// unless a line break comes first.
pub open spec fn wikilink_end(c: Seq<char>, i: int) -> Option<int>
    decreases c.len() - i,
{
    if i < 0 || i + 1 >= c.len() {
        None
    } else if c[i] == '\n' {
        None
    } else if c[i] == ']' && c[i + 1] == ']' {
        Some(i)
    } else {
        wikilink_end(c, i + 1)
    }
}

pub proof fn lemma_wikilink_end(c: Seq<char>, i: int)
    requires
        0 <= i,
    ensures
        wikilink_end(c, i) matches Some(e) ==> i <= e && e + 1 < c.len() && c[e] == ']' && c[e
            + 1] == ']',
    decreases c.len() - i,
{
    if i + 1 < c.len() && c[i] != '\n' && !(c[i] == ']' && c[i + 1] == ']') {
        lemma_wikilink_end(c, i + 1);
    }
}

/// Where a wikilink's target ends inside it: at the first `|` or `#`.
pub open spec fn target_end(inner: Seq<char>, k: int) -> int
    decreases inner.len() - k,
{
    if k < 0 || k >= inner.len() {
        inner.len() as int
    } else if inner[k] == '|' || inner[k] == '#' {
        k
    } else {
        target_end(inner, k + 1)
    }
}

pub proof fn lemma_target_end(inner: Seq<char>, k: int)
    requires
        0 <= k <= inner.len(),
    ensures
        k <= target_end(inner, k) <= inner.len(),
    decreases inner.len() - k,
{
    if k < inner.len() && inner[k] != '|' && inner[k] != '#' {
        lemma_target_end(inner, k + 1);
    }
}

/// No character of `a..b` lies in an inline code span.
pub open spec fn clear_of_code(flags: Seq<bool>, a: int, b: int) -> bool {
    forall|k: int| a <= k < b ==> !#[trigger] flags[k]
}

/// A line from `i` on with every wikilink to `old` retargeted to `new` (alias
/// and heading kept), and whether any was. `flags` marks the characters in
/// inline code spans; a wikilink that touches one is no link and stays.
pub open spec fn rewrite_from(c: Seq<char>, flags: Seq<bool>, old: Seq<char>, new: Seq<char>, i: int) -> (
    Seq<char>,
    bool,
)
    decreases c.len() - i,
{
    if i < 0 || i >= c.len() {
        (seq![], false)
    } else if i + 1 < c.len() && c[i] == '[' && c[i + 1] == '[' && wikilink_end(c, i + 2) is Some
        && clear_of_code(flags, i, wikilink_end(c, i + 2)->0 + 2) {
        let end = wikilink_end(c, i + 2)->0;
        proof {
            lemma_wikilink_end(c, i + 2);
        }
        let inner = c.subrange(i + 2, end);
        let split = target_end(inner, 0);
        let rest = rewrite_from(c, flags, old, new, end + 2);
        if trim(inner.subrange(0, split)) == trim(old) {
            (
                seq!['[', '['] + new + inner.subrange(split, inner.len() as int) + seq![']', ']']
                    + rest.0,
                true,
            )
        } else {
            (seq!['[', '['] + inner + seq![']', ']'] + rest.0, rest.1)
        }
    } else {
        let rest = rewrite_from(c, flags, old, new, i + 1);
        (seq![c[i]] + rest.0, rest.1)
    }
}

/// The fence state after a line with a fence marker: a matching marker at
/// least as long closes the open fence, any marker opens one when none is open.
pub open spec fn fence_after(fence: Option<(char, nat)>, marker: (char, nat)) -> Option<(char, nat)> {
    match fence {
        Some(open) => if open.0 == marker.0 && marker.1 >= open.1 {
            None
        } else {
            fence
        },
        None => Some(marker),
    }
}

/// One line `raw` (with whatever `\r` ends it) rewritten, whether any link
/// was, and the fence state after it. Fence lines and lines inside a fence
/// stay as they are.
pub open spec fn rewrite_line(raw: Seq<char>, seen: Seq<char>, fence: Option<(char, nat)>, old: Seq<char>, new: Seq<char>) -> (
    Seq<char>,
    bool,
    Option<(char, nat)>,
) {
    match line_fence(seen) {
        Some(marker) => (raw, false, fence_after(fence, marker)),
        None => if fence is Some {
            (raw, false, fence)
        } else {
            let r = rewrite_from(raw, code_span_flags(raw), old, new, 0);
            (r.0, r.1, None)
        },
    }
}

/// The lines of a body from position `i` on, with `fence` the code fence
/// open there, rewritten as `rewrite_line` says; the line breaks stay.
pub open spec fn rewrite_lines_from(c: Seq<char>, old: Seq<char>, new: Seq<char>, i: int, fence: Option<(char, nat)>) -> (
    Seq<char>,
    bool,
)
    decreases c.len() - i,
{
    if i < 0 || i >= c.len() {
        (seq![], false)
    } else {
        let e = find_from(c, '\n', i);
        proof {
            lemma_find_from(c, '\n', i);
        }
        let l = rewrite_line(c.subrange(i, e), line_text(c, i, e), fence, old, new);
        if e >= c.len() {
            (l.0, l.1)
        } else {
            let rest = rewrite_lines_from(c, old, new, e + 1, l.2);
            (l.0 + seq!['\n'] + rest.0, l.1 || rest.1)
        }
    }
}

/// A body with every wikilink to `old` retargeted to `new`, and whether any
/// was. What the scan of the body does not see as a link (text in fenced code
/// blocks and in inline code spans) stays as it is.
pub open spec fn rewrite_body(c: Seq<char>, old: Seq<char>, new: Seq<char>) -> (Seq<char>, bool) {
    rewrite_lines_from(c, old, new, 0, None)
}

proof fn lemma_rewrite_line_untouched(c: Seq<char>, flags: Seq<bool>, old: Seq<char>, new: Seq<char>, i: int)
    requires
        0 <= i <= c.len(),
    ensures
        !rewrite_from(c, flags, old, new, i).1 ==> rewrite_from(c, flags, old, new, i).0 == c.subrange(
            i,
            c.len() as int,
        ),
    decreases c.len() - i,
{
    if i < c.len() {
        if i + 1 < c.len() && c[i] == '[' && c[i + 1] == '[' && wikilink_end(c, i + 2) is Some
            && clear_of_code(flags, i, wikilink_end(c, i + 2)->0 + 2) {
            let end = wikilink_end(c, i + 2)->0;
            lemma_wikilink_end(c, i + 2);
            lemma_rewrite_line_untouched(c, flags, old, new, end + 2);
            let inner = c.subrange(i + 2, end);
            if !rewrite_from(c, flags, old, new, i).1 {
                assert(seq!['[', '['] + inner + seq![']', ']'] + c.subrange(end + 2, c.len() as int)
                    =~= c.subrange(i, c.len() as int));
            }
        } else {
            lemma_rewrite_line_untouched(c, flags, old, new, i + 1);
            if !rewrite_from(c, flags, old, new, i).1 {
                assert(seq![c[i]] + c.subrange(i + 1, c.len() as int) =~= c.subrange(
                    i,
                    c.len() as int,
                ));
            }
        }
    } else {
        assert(c.subrange(i, c.len() as int) =~= Seq::<char>::empty());
    }
}

proof fn lemma_rewrite_lines_untouched(c: Seq<char>, old: Seq<char>, new: Seq<char>, i: int, fence: Option<(char, nat)>)
    requires
        0 <= i <= c.len(),
    ensures
        !rewrite_lines_from(c, old, new, i, fence).1 ==> rewrite_lines_from(c, old, new, i, fence).0
            == c.subrange(i, c.len() as int),
    decreases c.len() - i,
{
    if i < c.len() {
        let e = find_from(c, '\n', i);
        lemma_find_from(c, '\n', i);
        let raw = c.subrange(i, e);
        let l = rewrite_line(raw, line_text(c, i, e), fence, old, new);
        if line_fence(line_text(c, i, e)) is None && fence is None {
            lemma_rewrite_line_untouched(raw, code_span_flags(raw), old, new, 0);
            assert(raw.subrange(0, raw.len() as int) =~= raw);
        }
        if e < c.len() {
            lemma_rewrite_lines_untouched(c, old, new, e + 1, l.2);
            if !rewrite_lines_from(c, old, new, i, fence).1 {
                assert(raw + seq!['\n'] + c.subrange(e + 1, c.len() as int) =~= c.subrange(i, c.len() as int));
            }
        } else {
            assert(raw =~= c.subrange(i, c.len() as int));
        }
    } else {
        assert(c.subrange(i, c.len() as int) =~= Seq::<char>::empty());
    }
}

/// A rewrite that touched no link leaves the text as it was.
pub proof fn lemma_rewrite_untouched(c: Seq<char>, old: Seq<char>, new: Seq<char>)
    ensures
        !rewrite_body(c, old, new).1 ==> rewrite_body(c, old, new).0 == c,
{
    lemma_rewrite_lines_untouched(c, old, new, 0, None);
    assert(c.subrange(0, c.len() as int) =~= c);
}

fn wikilink_end_exec(c: &[char], from: usize) -> (r: Option<usize>)
    requires
        from <= c@.len(),
    ensures
        match r {
            Some(e) => wikilink_end(c@, from as int) == Some(e as int),
            None => wikilink_end(c@, from as int) is None,
        },
{
    let mut i = from;
    while i < c.len() && i + 1 < c.len()
        invariant
            from <= i <= c@.len(),
            wikilink_end(c@, i as int) == wikilink_end(c@, from as int),
        decreases c@.len() - i,
    {
        if c[i] == '\n' {
            return None;
        }
        if c[i] == ']' && c[i + 1] == ']' {
            return Some(i);
        }
        i += 1;
    }
    None
}

fn push_all(out: &mut Vec<char>, s: &[char])
    ensures
        final(out)@ == old(out)@ + s@,
{
    let ghost start = out@;
    let mut i: usize = 0;
    while i < s.len()
        invariant
            i <= s@.len(),
            out@ == start + s@.subrange(0, i as int),
        decreases s@.len() - i,
    {
        out.push(s[i]);
        assert(out@ =~= start + s@.subrange(0, i + 1));
        i += 1;
    }
    assert(s@.subrange(0, i as int) =~= s@);
}

fn code_free(flags: &[bool], a: usize, b: usize) -> (r: bool)
    requires
        a <= b <= flags@.len(),
    ensures
        r == clear_of_code(flags@, a as int, b as int),
{
    let mut k = a;
    while k < b
        invariant
            a <= k <= b <= flags@.len(),
            forall|m: int| a <= m < k ==> !#[trigger] flags@[m],
        decreases b - k,
    {
        if flags[k] {
            return false;
        }
        k += 1;
    }
    true
}

/// One line rewritten: every wikilink to `old_target` that no inline code
/// span touches gets `new_target`.
fn replace_in_line(line: &[char], old_target: &[char], new_target: &[char]) -> (r: (Vec<char>, bool))
    ensures
        (r.0@, r.1) == rewrite_from(line@, crate::links::code_span_flags(line@), old_target@, new_target@, 0),
{
    let flags = crate::links::code_span_flags_exec(line);
    let ghost fl = flags@;
    let ghost total = rewrite_from(line@, fl, old_target@, new_target@, 0);
    let old_trim = trim_vec(old_target);
    let mut out: Vec<char> = Vec::new();
    let mut hit = false;
    let mut i: usize = 0;
    while i < line.len()
        invariant
            i <= line@.len(),
            fl == flags@,
            flags@.len() == line@.len(),
            old_trim@ == trim(old_target@),
            out@ + rewrite_from(line@, fl, old_target@, new_target@, i as int).0 == total.0,
            (hit || rewrite_from(line@, fl, old_target@, new_target@, i as int).1) == total.1,
        decreases line@.len() - i,
    {
        let ghost before = out@;
        let ghost here = rewrite_from(line@, fl, old_target@, new_target@, i as int);
        if i + 1 < line.len() && line[i] == '[' && line[i + 1] == '[' {
            match wikilink_end_exec(line, i + 2) {
                Some(end) => {
                    proof {
                        lemma_wikilink_end(line@, i + 2);
                    }
                    if code_free(flags.as_slice(), i, end + 2) {
                        let inner = slice_of(line, i + 2, end);
                        let mut split: usize = 0;
                        while split < inner.len() && inner[split] != '|' && inner[split] != '#'
                            invariant
                                split <= inner@.len(),
                                target_end(inner@, split as int) == target_end(inner@, 0),
                            decreases inner@.len() - split,
                        {
                            split += 1;
                        }
                        let t = trim_vec(slice_of(inner.as_slice(), 0, split).as_slice());
                        let tail = slice_of(inner.as_slice(), split, inner.len());
                        out.push('[');
                        out.push('[');
                        if vec_eq(t.as_slice(), old_trim.as_slice()) {
                            push_all(&mut out, new_target);
                            push_all(&mut out, tail.as_slice());
                            hit = true;
                        } else {
                            push_all(&mut out, inner.as_slice());
                        }
                        out.push(']');
                        out.push(']');
                        proof {
                            let rest = rewrite_from(line@, fl, old_target@, new_target@, end + 2);
                            assert(out@ + rest.0 =~= before + here.0);
                        }
                        i = end + 2;
                        continue;
                    }
                },
                None => {},
            }
        }
        out.push(line[i]);
        proof {
            let rest = rewrite_from(line@, fl, old_target@, new_target@, i + 1);
            assert(out@ + rest.0 =~= before + here.0);
        }
        i += 1;
    }
    assert(out@ + Seq::<char>::empty() =~= out@);
    (out, hit)
}

/// Swap the target of `[[old]]`, `[[old|alias]]` and `[[old#heading]]`.
///
/// Works on whole wikilinks rather than raw substrings so that renaming `Alpha`
/// never mangles `[[Alpha Beta]]`, and leaves fenced code blocks and inline
/// code spans alone, where the scan sees no link.
pub fn replace_wikilink_target(body: &[char], old_target: &[char], new_target: &[char]) -> (r: (
    Vec<char>,
    bool,
))
    ensures
        (r.0@, r.1) == rewrite_body(body@, old_target@, new_target@),
{
    let ghost total = rewrite_body(body@, old_target@, new_target@);
    let mut out: Vec<char> = Vec::new();
    let mut hit = false;
    let mut fence: Option<(char, usize)> = None;
    let mut i: usize = 0;
    while i < body.len()
        invariant
            i <= body@.len(),
            out@ + rewrite_lines_from(body@, old_target@, new_target@, i as int, match fence {
                Some((c, n)) => Some((c, n as nat)),
                None => None,
            }).0 == total.0,
            (hit || rewrite_lines_from(body@, old_target@, new_target@, i as int, match fence {
                Some((c, n)) => Some((c, n as nat)),
                None => None,
            }).1) == total.1,
        decreases body@.len() - i,
    {
        let ghost fv: Option<(char, nat)> = match fence {
            Some((c, n)) => Some((c, n as nat)),
            None => None,
        };
        let ghost before = out@;
        let ghost here = rewrite_lines_from(body@, old_target@, new_target@, i as int, fv);
        let e = find_char(body, '\n', i);
        proof {
            lemma_find_from(body@, '\n', i as int);
        }
        let raw = slice_of(body, i, e);
        let seen = if e < body.len() && e > i && body[e - 1] == '\r' {
            slice_of(body, i, e - 1)
        } else {
            slice_of(body, i, e)
        };
        assert(seen@ == line_text(body@, i as int, e as int));
        let ghost l = rewrite_line(raw@, seen@, fv, old_target@, new_target@);
        match crate::links::line_fence_exec(seen.as_slice()) {
            Some((mc, ml)) => {
                push_all(&mut out, raw.as_slice());
                match fence {
                    Some((fc, fl)) => {
                        if fc == mc && ml >= fl {
                            fence = None;
                        }
                    },
                    None => {
                        fence = Some((mc, ml));
                    },
                }
            },
            None => {
                if fence.is_some() {
                    push_all(&mut out, raw.as_slice());
                } else {
                    let (text, h) = replace_in_line(raw.as_slice(), old_target, new_target);
                    push_all(&mut out, text.as_slice());
                    hit = hit || h;
                }
            },
        }
        let ghost nf: Option<(char, nat)> = match fence {
            Some((c, n)) => Some((c, n as nat)),
            None => None,
        };
        assert(nf == l.2);
        assert(out@ == before + l.0);
        if e >= body.len() {
            proof {
                assert(here == (l.0, l.1));
                assert(rewrite_lines_from(body@, old_target@, new_target@, e as int, nf).0 =~= Seq::<char>::empty());
                assert(out@ + Seq::<char>::empty() =~= out@);
            }
            i = e;
        } else {
            out.push('\n');
            proof {
                let rest = rewrite_lines_from(body@, old_target@, new_target@, e + 1, nf);
                assert(here == (l.0 + seq!['\n'] + rest.0, l.1 || rest.1));
                assert(out@ + rest.0 =~= before + here.0);
            }
            i = e + 1;
        }
    }
    assert(out@ + Seq::<char>::empty() =~= out@);
    (out, hit)
}


proof fn lemma_wikilink_end_plain(c: Seq<char>, i: int, e: int)
    requires
        0 <= i <= e,
        e + 1 < c.len(),
        c[e] == ']' && c[e + 1] == ']',
        forall|k: int| i <= k < e ==> #[trigger] c[k] != ']' && c[k] != '\n',
    ensures
        wikilink_end(c, i) == Some(e),
    decreases e - i,
{
    if i < e {
        lemma_wikilink_end_plain(c, i + 1, e);
    }
}

proof fn lemma_target_end_at(inner: Seq<char>, k: int, e: int)
    requires
        0 <= k <= e < inner.len(),
        inner[e] == '#' || inner[e] == '|',
        forall|m: int| k <= m < e ==> #[trigger] inner[m] != '|' && inner[m] != '#',
    ensures
        target_end(inner, k) == e,
    decreases e - k,
{
    if k < e {
        lemma_target_end_at(inner, k + 1, e);
    }
}

/// Moving a note keeps a link's heading or alias: a body that is the link
/// `[[old#heading]]` or `[[old|alias]]` is rewritten to `[[new#heading]]` or
/// `[[new|alias]]`, whatever follows the separator (the target ends at the
/// first `#` or `|`).
pub proof fn lemma_rewrite_keeps_heading(old: Seq<char>, new: Seq<char>, sep: char, h: Seq<char>)
    requires
        sep == '#' || sep == '|',
        forall|k: int|
            0 <= k < old.len() ==> #[trigger] old[k] != '|' && old[k] != '#' && old[k] != ']' && old[k] != '\n'
                && old[k] != '`',
        forall|k: int| 0 <= k < h.len() ==> #[trigger] h[k] != ']' && h[k] != '\n' && h[k] != '`',
    ensures
        rewrite_body(seq!['[', '['] + old + seq![sep] + h + seq![']', ']'], old, new) == (
            seq!['[', '['] + new + seq![sep] + h + seq![']', ']'],
            true,
        ),
{
    let c = seq!['[', '['] + old + seq![sep] + h + seq![']', ']'];
    let n = c.len() as int;
    let p = old.len() as int;
    assert forall|k: int| 0 <= k < n implies #[trigger] c[k] != '\n' && c[k] != '`' by {
        if 2 <= k < 2 + p {
            assert(c[k] == old[k - 2]);
        } else if 3 + p <= k < n - 2 {
            assert(c[k] == h[k - 3 - p]);
        }
    }
    crate::vault::lemma_find_absent(c, '\n', 0);
    assert(c.subrange(0, n) =~= c);
    assert(line_text(c, 0, n) == c);
    assert(crate::links::line_fence(c) is None) by {
        assert(!crate::text::is_ws('['));
        assert(crate::text::skip_ws(c, 0) == 0);
        assert(c.subrange(0, 0) =~= Seq::<char>::empty());
        assert(crate::text::trim_start(c) =~= c);
    }
    crate::links::lemma_mask_from_plain(c, 0, c);
    let fl = code_span_flags(c);
    assert(clear_of_code(fl, 0, n));
    assert forall|k: int| 2 <= k < n - 2 implies #[trigger] c[k] != ']' && c[k] != '\n' by {
        if 2 <= k < 2 + p {
            assert(c[k] == old[k - 2]);
        } else if 3 + p <= k < n - 2 {
            assert(c[k] == h[k - 3 - p]);
        }
    }
    lemma_wikilink_end_plain(c, 2, n - 2);
    let inner = c.subrange(2, n - 2);
    assert(inner =~= old + seq![sep] + h);
    assert forall|m: int| 0 <= m < p implies #[trigger] inner[m] != '|' && inner[m] != '#' by {
        assert(inner[m] == old[m]);
    }
    lemma_target_end_at(inner, 0, p);
    assert(inner.subrange(0, p) =~= old);
    assert(inner.subrange(p, inner.len() as int) =~= seq![sep] + h);
    assert(rewrite_from(c, fl, old, new, n) == (Seq::<char>::empty(), false));
    assert(rewrite_from(c, fl, old, new, 0).0 =~= seq!['[', '['] + new + seq![sep] + h + seq![']', ']']);
}
} // verus!
