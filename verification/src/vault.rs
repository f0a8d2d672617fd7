//! The vault: a plain folder of markdown on the host filesystem.
//!
//! Every operation is expressed in vault-relative paths with forward slashes,
//! and every one of them is checked against the root before it touches disk.
//! This module holds those checks and the text the operations compute; the
//! filesystem calls themselves are made by the application around it. Paths
//! follow Unix conventions: `/` separates components and a leading `/` makes
//! a path absolute.

use vstd::prelude::*;

use crate::error::VaultError;
use crate::links::{SpecHeading, strings_view};
use crate::note::{Note, after_last, file_name};
use crate::paths::{
    after_last_exec, dot, dot_dot, join_relative, join_slash, lemma_walk_ordinary, pieces,
    pieces_from, walk,
};
use crate::text::{
    chars_of, find_from, lemma_find_from, lines, occurs_at, slice_of, split_lines, string_of, trim,
    trim_vec, vec_eq,
};
use crate::yaml::{eq_ignore_case, eq_ignore_case_exec};

verus! {

pub struct Vault {
    root: String,
}

// ---------------------------------------------------------------------------
// path components
// ---------------------------------------------------------------------------

/// The named and `..` components of a `/`-separated path: empty segments and
/// `.` are not components.
pub open spec fn components(p: Seq<char>) -> Seq<Seq<char>> {
    keep_components(pieces(p, '/'))
}

pub open spec fn keep_components(s: Seq<Seq<char>>) -> Seq<Seq<char>>
    decreases s.len(),
{
    if s.len() == 0 {
        seq![]
    } else if s.last().len() > 0 && s.last() != dot() {
        keep_components(s.drop_last()).push(s.last())
    } else {
        keep_components(s.drop_last())
    }
}

pub open spec fn is_absolute(p: Seq<char>) -> bool {
    p.len() > 0 && p[0] == '/'
}

/// The components of `path` after those of `root`, when `root`'s are a
/// prefix of them (`Path::strip_prefix`).
pub open spec fn strip_root(root: Seq<char>, path: Seq<char>) -> Option<Seq<Seq<char>>> {
    let rc = components(root);
    let pc = components(path);
    if is_absolute(root) == is_absolute(path) && rc.len() <= pc.len() && pc.subrange(
        0,
        rc.len() as int,
    ) == rc {
        Some(pc.subrange(rc.len() as int, pc.len() as int))
    } else {
        None
    }
}

/// Why a path was refused: it climbs out of the vault, or it names nothing.
pub enum PathFault {
    Outside(Seq<char>),
    Invalid(Seq<char>),
}

pub open spec fn fault_of(e: VaultError) -> Option<PathFault> {
    match e {
        VaultError::OutsideVault(s) => Some(PathFault::Outside(s@)),
        VaultError::InvalidPath(s) => Some(PathFault::Invalid(s@)),
        _ => None,
    }
}

pub open spec fn path_is_empty_message() -> Seq<char> {
    seq!['p', 'a', 't', 'h', ' ', 'i', 's', ' ', 'e', 'm', 'p', 't', 'y']
}

/// Caller input as a vault-relative path, or why it is refused.
///
/// Absolute paths inside the vault are rebased onto it; `.` and empty
/// segments are dropped; `..` goes up a level, and anything that climbs past
/// the root is refused outright.
pub open spec fn normalize_spec(root: Seq<char>, input: Seq<char>) -> Result<Seq<char>, PathFault> {
    let t = trim(input);
    if t.len() == 0 {
        Err(PathFault::Invalid(path_is_empty_message()))
    } else {
        let rel = if is_absolute(t) {
            strip_root(root, t)
        } else {
            Some(components(t))
        };
        match rel {
            None => Err(PathFault::Outside(t)),
            Some(r) => match walk(seq![], r, 0) {
                None => Err(PathFault::Outside(t)),
                Some(parts) => if parts.len() == 0 {
                    Err(PathFault::Invalid(t))
                } else {
                    Ok(join_slash(parts))
                },
            },
        }
    }
}

/// A segment a vault path may hold: a name, not empty, not `.` or `..`, with
/// no `/` inside.
pub open spec fn ordinary(s: Seq<char>) -> bool {
    s.len() > 0 && s != dot() && s != dot_dot() && !s.contains('/')
}

// ---------------------------------------------------------------------------
// laws of normalization
// ---------------------------------------------------------------------------

proof fn lemma_pieces_no_sep(s: Seq<char>, c: char, i: int)
    requires
        0 <= i,
    ensures
        forall|k: int| 0 <= k < pieces_from(s, c, i).len() ==> !(#[trigger] pieces_from(s, c, i)[k]).contains(c),
    decreases s.len() - i,
{
    if i <= s.len() {
        let e = find_from(s, c, i);
        lemma_find_from(s, c, i);
        let first = s.subrange(i, if e >= s.len() { s.len() as int } else { e });
        assert forall|x: int| 0 <= x < first.len() implies first[x] != c by {
            assert(first[x] == s[i + x]);
        }
        if e < s.len() {
            lemma_pieces_no_sep(s, c, e + 1);
            let rest = pieces_from(s, c, e + 1);
            assert forall|k: int| 0 <= k < pieces_from(s, c, i).len() implies !(
            #[trigger] pieces_from(s, c, i)[k]).contains(c) by {
                if k == 0 {
                    assert(pieces_from(s, c, i)[0] == first);
                } else {
                    assert(pieces_from(s, c, i)[k] == rest[k - 1]);
                }
            }
        } else {
            assert(pieces_from(s, c, i)[0] == first);
        }
    }
}

proof fn lemma_keep_components(s: Seq<Seq<char>>)
    requires
        forall|k: int| 0 <= k < s.len() ==> !(#[trigger] s[k]).contains('/'),
    ensures
        forall|k: int|
            0 <= k < keep_components(s).len() ==> (#[trigger] keep_components(s)[k]).len() > 0
                && keep_components(s)[k] != dot() && !keep_components(s)[k].contains('/'),
    decreases s.len(),
{
    if s.len() > 0 {
        assert forall|k: int| 0 <= k < s.drop_last().len() implies !(
        #[trigger] s.drop_last()[k]).contains('/') by {
            assert(s.drop_last()[k] == s[k]);
        }
        lemma_keep_components(s.drop_last());
        assert(!s[s.len() - 1].contains('/'));
        let prev = keep_components(s.drop_last());
        if s.last().len() > 0 && s.last() != dot() {
            let r = prev.push(s.last());
            assert forall|k: int| 0 <= k < r.len() implies (#[trigger] r[k]).len() > 0 && r[k]
                != dot() && !r[k].contains('/') by {
                if k < prev.len() {
                    assert(r[k] == prev[k]);
                }
            }
        }
    }
}

proof fn lemma_walk_keeps_names(parts: Seq<Seq<char>>, segs: Seq<Seq<char>>, k: int)
    requires
        0 <= k,
        forall|i: int| 0 <= i < parts.len() ==> !(#[trigger] parts[i]).contains('/'),
        forall|i: int| 0 <= i < segs.len() ==> !(#[trigger] segs[i]).contains('/'),
    ensures
        walk(parts, segs, k) matches Some(r) ==> forall|i: int|
            0 <= i < r.len() ==> !(#[trigger] r[i]).contains('/'),
    decreases segs.len() - k,
{
    if k < segs.len() {
        if segs[k].len() == 0 || segs[k] == dot() {
            lemma_walk_keeps_names(parts, segs, k + 1);
        } else if segs[k] == dot_dot() {
            if parts.len() > 0 {
                lemma_walk_keeps_names(parts.drop_last(), segs, k + 1);
            }
        } else {
            let np = parts.push(segs[k]);
            assert forall|i: int| 0 <= i < np.len() implies !(#[trigger] np[i]).contains('/') by {
                if i < parts.len() {
                    assert(np[i] == parts[i]);
                }
            }
            lemma_walk_keeps_names(np, segs, k + 1);
        }
    }
}

/// A normalized path is never empty and is made of ordinary names only: no
/// `..` that could climb out of the vault, no `.`, no empty segment.
pub proof fn lemma_normalize_safe(root: Seq<char>, input: Seq<char>)
    ensures
        normalize_spec(root, input) matches Ok(p) ==> exists|parts: Seq<Seq<char>>|
            parts.len() > 0 && p == join_slash(parts) && forall|i: int|
                0 <= i < parts.len() ==> ordinary(#[trigger] parts[i]),
{
    let t = trim(input);
    if t.len() > 0 {
        let pc = components(t);
        lemma_pieces_no_sep(t, '/', 0);
        lemma_keep_components(pieces(t, '/'));
        let rc = components(root);
        lemma_pieces_no_sep(root, '/', 0);
        lemma_keep_components(pieces(root, '/'));
        let rel = if is_absolute(t) {
            strip_root(root, t)
        } else {
            Some(pc)
        };
        if let Some(r) = rel {
            assert forall|i: int| 0 <= i < r.len() implies !(#[trigger] r[i]).contains('/') by {
                if is_absolute(t) {
                    assert(r[i] == pc[i + rc.len()]);
                } else {
                    assert(r[i] == pc[i]);
                }
            }
            lemma_walk_ordinary(seq![], r, 0);
            lemma_walk_keeps_names(seq![], r, 0);
            if let Some(parts) = walk(seq![], r, 0) {
                if parts.len() > 0 {
                    assert forall|i: int| 0 <= i < parts.len() implies ordinary(#[trigger] parts[i]) by {
                        assert(parts[i].len() > 0 && parts[i] != dot() && parts[i] != dot_dot());
                        assert(!parts[i].contains('/'));
                    }
                }
            }
        }
    }
}

proof fn lemma_find_shift(a: Seq<char>, b: Seq<char>, c: char, j: int)
    requires
        0 <= j <= b.len(),
    ensures
        find_from(a + b, c, a.len() + j) == a.len() + find_from(b, c, j),
    decreases b.len() - j,
{
    if j < b.len() {
        assert((a + b)[a.len() + j] == b[j]);
        if b[j] != c {
            lemma_find_shift(a, b, c, j + 1);
        }
    }
}

proof fn lemma_pieces_shift(a: Seq<char>, b: Seq<char>, c: char, j: int)
    requires
        0 <= j <= b.len(),
    ensures
        pieces_from(a + b, c, a.len() + j) == pieces_from(b, c, j),
    decreases b.len() - j,
{
    lemma_find_shift(a, b, c, j);
    lemma_find_from(b, c, j);
    let e = find_from(b, c, j);
    if e >= b.len() {
        assert((a + b).subrange(a.len() + j, (a + b).len() as int) =~= b.subrange(j, b.len() as int));
    } else {
        assert((a + b).subrange(a.len() + j, a.len() + e) =~= b.subrange(j, e));
        lemma_pieces_shift(a, b, c, e + 1);
    }
}

pub proof fn lemma_find_absent(s: Seq<char>, c: char, i: int)
    requires
        0 <= i <= s.len(),
        forall|k: int| 0 <= k < s.len() ==> #[trigger] s[k] != c,
    ensures
        find_from(s, c, i) == s.len(),
{
    assert(!s.contains(c));
    lemma_find_none(s, c, i);
}

proof fn lemma_find_none(s: Seq<char>, c: char, i: int)
    requires
        0 <= i <= s.len(),
        !s.contains(c),
    ensures
        find_from(s, c, i) == s.len(),
    decreases s.len() - i,
{
    if i < s.len() {
        assert(s[i] != c);
        lemma_find_none(s, c, i + 1);
    }
}

proof fn lemma_find_skip(s: Seq<char>, c: char, i: int, j: int)
    requires
        0 <= i <= j <= s.len(),
        forall|k: int| i <= k < j ==> #[trigger] s[k] != c,
    ensures
        find_from(s, c, i) == find_from(s, c, j),
    decreases j - i,
{
    if i < j {
        lemma_find_skip(s, c, i + 1, j);
    }
}

proof fn lemma_join_front(parts: Seq<Seq<char>>)
    requires
        parts.len() >= 2,
    ensures
        join_slash(parts) == parts[0] + seq!['/'] + join_slash(parts.drop_first()),
    decreases parts.len(),
{
    if parts.len() == 2 {
        assert(parts.drop_last() =~= seq![parts[0]]);
        assert(parts.drop_first() =~= seq![parts[1]]);
        assert(join_slash(parts.drop_last()) == parts[0]);
        assert(join_slash(parts.drop_first()) == parts[1]);
        assert(join_slash(parts) == join_slash(parts.drop_last()) + seq!['/'] + parts.last());
    } else {
        let dl = parts.drop_last();
        let df = parts.drop_first();
        lemma_join_front(dl);
        assert(dl.drop_first() =~= df.drop_last());
        assert(df.last() == parts.last());
        assert(dl[0] == parts[0]);
        assert(join_slash(parts) == join_slash(dl) + seq!['/'] + parts.last());
        assert(join_slash(df) == join_slash(df.drop_last()) + seq!['/'] + df.last());
        assert(join_slash(parts) =~= parts[0] + seq!['/'] + join_slash(df));
    }
}

proof fn lemma_pieces_join(parts: Seq<Seq<char>>)
    requires
        parts.len() > 0,
        forall|i: int| 0 <= i < parts.len() ==> !(#[trigger] parts[i]).contains('/'),
    ensures
        pieces(join_slash(parts), '/') == parts,
    decreases parts.len(),
{
    if parts.len() == 1 {
        let p0 = parts[0];
        lemma_find_none(p0, '/', 0);
        assert(p0.subrange(0, p0.len() as int) =~= p0);
        assert(pieces(p0, '/') =~= parts);
    } else {
        let p0 = parts[0];
        let rest = parts.drop_first();
        assert forall|i: int| 0 <= i < rest.len() implies !(#[trigger] rest[i]).contains('/') by {
            assert(rest[i] == parts[i + 1]);
        }
        lemma_pieces_join(rest);
        lemma_join_front(parts);
        let a = p0 + seq!['/'];
        let b = join_slash(rest);
        let s = a + b;
        assert(s == join_slash(parts));
        lemma_find_none(p0, '/', 0);
        lemma_find_shift(p0, seq!['/'] + b, '/', 0);
        assert(p0 + (seq!['/'] + b) =~= s);
        assert(find_from(seq!['/'] + b, '/', 0) == 0);
        assert forall|k: int| 0 <= k < p0.len() implies #[trigger] s[k] != '/' by {
            assert(s[k] == p0[k]);
            if p0[k] == '/' {
                assert(p0.contains('/'));
            }
        }
        lemma_find_skip(s, '/', 0, p0.len() as int);
        assert(find_from(s, '/', 0) == p0.len());
        lemma_pieces_shift(a, b, '/', 0);
        assert(s.subrange(0, p0.len() as int) =~= p0);
        assert(pieces(s, '/') =~= seq![p0] + pieces(b, '/'));
        assert(parts =~= seq![p0] + rest);
    }
}

proof fn lemma_keep_names(parts: Seq<Seq<char>>)
    requires
        forall|i: int| 0 <= i < parts.len() ==> ordinary(#[trigger] parts[i]),
    ensures
        keep_components(parts) == parts,
    decreases parts.len(),
{
    if parts.len() > 0 {
        assert forall|i: int| 0 <= i < parts.drop_last().len() implies ordinary(#[trigger] parts.drop_last()[i]) by {
            assert(parts.drop_last()[i] == parts[i]);
        }
        lemma_keep_names(parts.drop_last());
        assert(ordinary(parts[parts.len() - 1]));
        assert(parts.drop_last().push(parts.last()) =~= parts);
    }
}

proof fn lemma_walk_names(prefix: Seq<Seq<char>>, parts: Seq<Seq<char>>, k: int)
    requires
        0 <= k <= parts.len(),
        forall|i: int| 0 <= i < parts.len() ==> ordinary(#[trigger] parts[i]),
    ensures
        walk(prefix, parts, k) == Some(prefix + parts.subrange(k, parts.len() as int)),
    decreases parts.len() - k,
{
    if k < parts.len() {
        assert(ordinary(parts[k]));
        lemma_walk_names(prefix.push(parts[k]), parts, k + 1);
        assert(prefix.push(parts[k]) + parts.subrange(k + 1, parts.len() as int) =~= prefix
            + parts.subrange(k, parts.len() as int));
    } else {
        assert(prefix + parts.subrange(k, parts.len() as int) =~= prefix);
    }
}

proof fn lemma_join_first(parts: Seq<Seq<char>>)
    requires
        parts.len() > 0,
        parts[0].len() > 0,
    ensures
        join_slash(parts).len() > 0,
        join_slash(parts)[0] == parts[0][0],
    decreases parts.len(),
{
    if parts.len() >= 2 {
        lemma_join_front(parts);
    }
}

/// Normalizing is idempotent: a normalized path, normalized again, comes
/// back unchanged, whenever it neither begins nor ends with whitespace
/// (normalizing trims its input first).
pub proof fn lemma_normalize_idempotent(root: Seq<char>, input: Seq<char>, p: Seq<char>)
    requires
        normalize_spec(root, input) == Ok::<Seq<char>, PathFault>(p),
        trim(p) == p,
    ensures
        normalize_spec(root, p) == Ok::<Seq<char>, PathFault>(p),
{
    lemma_normalize_safe(root, input);
    let parts = choose|parts: Seq<Seq<char>>|
        parts.len() > 0 && p == join_slash(parts) && forall|i: int|
            0 <= i < parts.len() ==> ordinary(#[trigger] parts[i]);
    assert(ordinary(parts[0]));
    lemma_join_first(parts);
    assert(parts[0][0] != '/') by {
        if parts[0][0] == '/' {
            assert(parts[0].contains('/'));
        }
    }
    assert(!is_absolute(p));
    lemma_pieces_join(parts);
    lemma_keep_names(parts);
    assert(components(p) == parts);
    lemma_walk_names(seq![], parts, 0);
    assert(Seq::<Seq<char>>::empty() + parts.subrange(0, parts.len() as int) =~= parts);
}

/// When normalizing refuses a path, and why: an input that is blank after
/// trimming, or whose segments cancel out to nothing, names no path; one whose
/// `..` climbs above its start, or an absolute one that does not lie under the
/// root, is outside the vault.
pub proof fn lemma_normalize_errors(root: Seq<char>, input: Seq<char>)
    ensures
        trim(input).len() == 0 ==> normalize_spec(root, input) == Err::<Seq<char>, PathFault>(
            PathFault::Invalid(path_is_empty_message()),
        ),
        trim(input).len() > 0 && is_absolute(trim(input)) && strip_root(root, trim(input)) is None
            ==> normalize_spec(root, input) == Err::<Seq<char>, PathFault>(PathFault::Outside(trim(input))),
        ({
            let t = trim(input);
            let rel = if is_absolute(t) {
                strip_root(root, t)
            } else {
                Some(components(t))
            };
            t.len() > 0 && rel is Some ==> match walk(seq![], rel->0, 0) {
                None => normalize_spec(root, input) == Err::<Seq<char>, PathFault>(PathFault::Outside(t)),
                Some(parts) => (parts.len() == 0) == (normalize_spec(root, input)
                    == Err::<Seq<char>, PathFault>(PathFault::Invalid(t))),
            }
        }),
        normalize_spec(root, input) is Err <==> (trim(input).len() == 0 || ({
            let t = trim(input);
            let rel = if is_absolute(t) {
                strip_root(root, t)
            } else {
                Some(components(t))
            };
            match rel {
                None => true,
                Some(r) => match walk(seq![], r, 0) {
                    None => true,
                    Some(parts) => parts.len() == 0,
                },
            }
        })),
{
}

// ---------------------------------------------------------------------------
// note paths
// ---------------------------------------------------------------------------

pub open spec fn word_md() -> Seq<char> {
    seq!['m', 'd']
}

pub open spec fn word_markdown() -> Seq<char> {
    seq!['m', 'a', 'r', 'k', 'd', 'o', 'w', 'n']
}

pub open spec fn word_mdx() -> Seq<char> {
    seq!['m', 'd', 'x']
}

/// One of the note extensions, in any ASCII case.
pub open spec fn is_note_ext(ext: Seq<char>) -> bool {
    eq_ignore_case(ext, word_md()) || eq_ignore_case(ext, word_markdown()) || eq_ignore_case(
        ext,
        word_mdx(),
    )
}

/// The file name carries a note extension after its last `.`.
pub open spec fn named_as_note(name: Seq<char>) -> bool {
    let a = after_last(name, '.', name.len() as int);
    a > 0 && is_note_ext(name.subrange(a, name.len() as int))
}

/// Normalized, with `.md` added when the file name has no note extension.
pub open spec fn normalize_note_spec(root: Seq<char>, input: Seq<char>) -> Result<
    Seq<char>,
    PathFault,
> {
    match normalize_spec(root, input) {
        Ok(p) => Ok(
            if named_as_note(file_name(p)) {
                p
            } else {
                p + seq!['.', 'm', 'd']
            },
        ),
        Err(e) => Err(e),
    }
}

/// `Path::join`: the relative path appended below the root.
pub open spec fn join_root(root: Seq<char>, rel: Seq<char>) -> Seq<char> {
    if root.len() == 0 {
        rel
    } else if root.last() == '/' {
        root + rel
    } else {
        root + seq!['/'] + rel
    }
}

/// `Path::file_name` on the root's last component, else the root itself.
pub open spec fn vault_name(root: Seq<char>) -> Seq<char> {
    let c = components(root);
    if c.len() > 0 && c.last() != dot_dot() {
        c.last()
    } else {
        root
    }
}

/// `Path::extension` of a file: what follows the last `.` of its name,
/// unless that `.` starts the name.
pub open spec fn has_note_extension(path: Seq<char>) -> bool {
    let c = components(path);
    c.len() > 0 && c.last() != dot_dot() && {
        let name = c.last();
        let a = after_last(name, '.', name.len() as int);
        a > 1 && is_note_ext(name.subrange(a, name.len() as int))
    }
}

/// A file path relative to the root, `/`-separated.
pub open spec fn relative_of_spec(root: Seq<char>, path: Seq<char>) -> Option<Seq<char>> {
    match strip_root(root, path) {
        Some(rest) => Some(join_slash(rest)),
        None => None,
    }
}

fn keep_components_exec(v: &Vec<Vec<char>>) -> (r: Vec<Vec<char>>)
    ensures
        r@.map_values(|p: Vec<char>| p@) == keep_components(v@.map_values(|p: Vec<char>| p@)),
{
    let ghost sv = v@.map_values(|p: Vec<char>| p@);
    let mut out: Vec<Vec<char>> = Vec::new();
    let mut k: usize = 0;
    while k < v.len()
        invariant
            k <= v@.len(),
            sv == v@.map_values(|p: Vec<char>| p@),
            out@.map_values(|p: Vec<char>| p@) == keep_components(sv.subrange(0, k as int)),
        decreases v@.len() - k,
    {
        let ghost before = out@.map_values(|p: Vec<char>| p@);
        assert(sv.subrange(0, k + 1).drop_last() =~= sv.subrange(0, k as int));
        assert(sv.subrange(0, k + 1).last() == v@[k as int]@);
        let seg = &v[k];
        let is_dot = seg.len() == 1 && seg[0] == '.';
        assert(is_dot == (seg@ == dot())) by {
            if seg@ == dot() {
                assert(seg@[0] == '.');
            }
            if is_dot {
                assert(seg@ =~= dot());
            }
        }
        if seg.len() > 0 && !is_dot {
            let copy = slice_of(seg.as_slice(), 0, seg.len());
            assert(copy@ =~= seg@);
            out.push(copy);
            assert(out@.map_values(|p: Vec<char>| p@) =~= before.push(seg@));
        }
        k += 1;
    }
    assert(sv.subrange(0, k as int) =~= sv);
    out
}

pub(crate) fn components_exec(p: &[char]) -> (r: Vec<Vec<char>>)
    ensures
        r@.map_values(|q: Vec<char>| q@) == components(p@),
{
    let all = crate::paths::pieces_exec(p, '/');
    keep_components_exec(&all)
}

pub(crate) fn seqs_eq(a: &Vec<Vec<char>>, b: &Vec<Vec<char>>, n: usize) -> (r: bool)
    requires
        n <= a@.len(),
        n <= b@.len(),
    ensures
        r == (a@.map_values(|q: Vec<char>| q@).subrange(0, n as int) == b@.map_values(
            |q: Vec<char>| q@,
        ).subrange(0, n as int)),
{
    let ghost av = a@.map_values(|q: Vec<char>| q@);
    let ghost bv = b@.map_values(|q: Vec<char>| q@);
    let mut k: usize = 0;
    while k < n
        invariant
            k <= n <= a@.len(),
            n <= b@.len(),
            av == a@.map_values(|q: Vec<char>| q@),
            bv == b@.map_values(|q: Vec<char>| q@),
            forall|m: int| 0 <= m < k ==> av[m] == bv[m],
        decreases n - k,
    {
        if !vec_eq(a[k].as_slice(), b[k].as_slice()) {
            assert(av.subrange(0, n as int)[k as int] != bv.subrange(0, n as int)[k as int]);
            return false;
        }
        k += 1;
    }
    assert(av.subrange(0, n as int) =~= bv.subrange(0, n as int));
    true
}

fn strip_root_exec(root: &[char], path: &[char]) -> (r: Option<Vec<Vec<char>>>)
    ensures
        match r {
            Some(rest) => strip_root(root@, path@) == Some(rest@.map_values(|q: Vec<char>| q@)),
            None => strip_root(root@, path@) is None,
        },
{
    let rc = components_exec(root);
    let pc = components_exec(path);
    let ra = root.len() > 0 && root[0] == '/';
    let pa = path.len() > 0 && path[0] == '/';
    if ra != pa || rc.len() > pc.len() || !seqs_eq(&pc, &rc, rc.len()) {
        proof {
            if rc@.len() <= pc@.len() {
                assert(rc@.map_values(|q: Vec<char>| q@).subrange(0, rc@.len() as int) =~= rc@.map_values(
                    |q: Vec<char>| q@,
                ));
            }
        }
        return None;
    }
    assert(rc@.map_values(|q: Vec<char>| q@).subrange(0, rc@.len() as int) =~= rc@.map_values(
        |q: Vec<char>| q@,
    ));
    let mut rest: Vec<Vec<char>> = Vec::new();
    let mut k = rc.len();
    while k < pc.len()
        invariant
            rc@.len() <= k <= pc@.len(),
            rest@.map_values(|q: Vec<char>| q@) == pc@.map_values(|q: Vec<char>| q@).subrange(
                rc@.len() as int,
                k as int,
            ),
        decreases pc@.len() - k,
    {
        let copy = slice_of(pc[k].as_slice(), 0, pc[k].len());
        assert(copy@ =~= pc@[k as int]@);
        let ghost before = rest@.map_values(|q: Vec<char>| q@);
        assert(pc@.map_values(|q: Vec<char>| q@)[k as int] == pc@[k as int]@);
        rest.push(copy);
        assert(rest@.map_values(|q: Vec<char>| q@) =~= before.push(copy@));
        assert(rest@.map_values(|q: Vec<char>| q@) =~= pc@.map_values(|q: Vec<char>| q@).subrange(
            rc@.len() as int,
            k + 1,
        ));
        k += 1;
    }
    Some(rest)
}

fn walk_exec(segs: &Vec<Vec<char>>) -> (r: Option<Vec<Vec<char>>>)
    ensures
        match r {
            Some(parts) => walk(seq![], segs@.map_values(|q: Vec<char>| q@), 0) == Some(
                parts@.map_values(|q: Vec<char>| q@),
            ),
            None => walk(seq![], segs@.map_values(|q: Vec<char>| q@), 0) is None,
        },
{
    let ghost sv = segs@.map_values(|q: Vec<char>| q@);
    let mut parts: Vec<Vec<char>> = Vec::new();
    assert(parts@.map_values(|q: Vec<char>| q@) =~= Seq::<Seq<char>>::empty());
    let mut k: usize = 0;
    while k < segs.len()
        invariant
            k <= segs@.len(),
            sv == segs@.map_values(|q: Vec<char>| q@),
            walk(parts@.map_values(|q: Vec<char>| q@), sv, k as int) == walk(seq![], sv, 0),
        decreases segs@.len() - k,
    {
        let seg = &segs[k];
        assert(sv[k as int] == seg@);
        let ghost pv = parts@.map_values(|q: Vec<char>| q@);
        let is_dot = seg.len() == 1 && seg[0] == '.';
        let is_dot_dot = seg.len() == 2 && seg[0] == '.' && seg[1] == '.';
        assert(is_dot == (seg@ == dot())) by {
            if seg@ == dot() {
                assert(seg@[0] == '.');
            }
            if is_dot {
                assert(seg@ =~= dot());
            }
        }
        assert(is_dot_dot == (seg@ == dot_dot())) by {
            if seg@ == dot_dot() {
                assert(seg@[0] == '.' && seg@[1] == '.');
            }
            if is_dot_dot {
                assert(seg@ =~= dot_dot());
            }
        }
        if seg.len() == 0 || is_dot {
        } else if is_dot_dot {
            if parts.len() == 0 {
                return None;
            }
            parts.pop();
            assert(parts@.map_values(|q: Vec<char>| q@) =~= pv.drop_last());
        } else {
            let copy = slice_of(seg.as_slice(), 0, seg.len());
            assert(copy@ =~= seg@);
            parts.push(copy);
            assert(parts@.map_values(|q: Vec<char>| q@) =~= pv.push(seg@));
        }
        k += 1;
    }
    Some(parts)
}

fn join_slash_owned(parts: &Vec<Vec<char>>) -> (r: String)
    ensures
        r@ == join_slash(parts@.map_values(|q: Vec<char>| q@)),
{
    string_of(crate::paths::join_slash_exec(parts).as_slice())
}

pub fn is_note_ext_exec(ext: &[char]) -> (r: bool)
    ensures
        r == is_note_ext(ext@),
{
    assert(['m', 'd']@ =~= word_md());
    assert(['m', 'a', 'r', 'k', 'd', 'o', 'w', 'n']@ =~= word_markdown());
    assert(['m', 'd', 'x']@ =~= word_mdx());
    eq_ignore_case_exec(ext, &['m', 'd']) || eq_ignore_case_exec(
        ext,
        &['m', 'a', 'r', 'k', 'd', 'o', 'w', 'n'],
    ) || eq_ignore_case_exec(ext, &['m', 'd', 'x'])
}

/// Whether a file path names a note by its extension.
pub fn is_note_path(path: &str) -> (r: bool)
    ensures
        r == has_note_extension(path@),
{
    let c = components_exec(chars_of(path).as_slice());
    if c.len() == 0 {
        return false;
    }
    let name = &c[c.len() - 1];
    assert(components(path@).last() == name@);
    let is_dot_dot = name.len() == 2 && name[0] == '.' && name[1] == '.';
    assert(is_dot_dot == (name@ == dot_dot())) by {
        if name@ == dot_dot() {
            assert(name@[0] == '.' && name@[1] == '.');
        }
        if is_dot_dot {
            assert(name@ =~= dot_dot());
        }
    }
    if is_dot_dot {
        return false;
    }
    let a = after_last_exec(name.as_slice(), '.');
    a > 1 && is_note_ext_exec(slice_of(name.as_slice(), a, name.len()).as_slice())
}

/// Notes are line-oriented; a trailing newline keeps appends and diffs clean.
pub open spec fn with_trailing_newline(c: Seq<char>) -> Seq<char> {
    if c.len() == 0 || c.last() == '\n' {
        c
    } else {
        c.push('\n')
    }
}

pub fn ensure_trailing_newline(content: &str) -> (r: String)
    ensures
        r@ == with_trailing_newline(content@),
{
    let mut c = chars_of(content);
    if c.len() > 0 && c[c.len() - 1] != '\n' {
        c.push('\n');
    }
    string_of(c.as_slice())
}

impl Vault {
    /// A vault rooted at the given (canonical, absolute) directory path.
    pub fn with_root(root: String) -> (r: Vault)
        ensures
            r.root_view() == root@,
    {
        Vault { root }
    }

    pub closed spec fn root_view(&self) -> Seq<char> {
        self.root@
    }

    pub fn root(&self) -> (r: &str)
        ensures
            r@ == self.root_view(),
    {
        self.root.as_str()
    }

    /// The vault's folder name, or the whole root when it has none.
    pub fn name(&self) -> (r: String)
        ensures
            r@ == vault_name(self.root_view()),
    {
        let rc = chars_of(self.root.as_str());
        let c = components_exec(rc.as_slice());
        if c.len() > 0 {
            let last = &c[c.len() - 1];
            let is_dot_dot = last.len() == 2 && last[0] == '.' && last[1] == '.';
            assert(is_dot_dot == (last@ == dot_dot())) by {
                if last@ == dot_dot() {
                    assert(last@[0] == '.' && last@[1] == '.');
                }
                if is_dot_dot {
                    assert(last@ =~= dot_dot());
                }
            }
            if !is_dot_dot {
                return string_of(last.as_slice());
            }
        }
        string_of(rc.as_slice())
    }

    /// Turn caller input into a safe vault-relative path.
    ///
    /// Absolute paths inside the vault are accepted and rebased; anything that
    /// climbs past the root with `..` is rejected outright.
    pub fn normalize(&self, input: &str) -> (r: Result<String, VaultError>)
        ensures
            match (r, normalize_spec(self.root_view(), input@)) {
                (Ok(p), Ok(q)) => p@ == q,
                (Err(e), Err(f)) => fault_of(e) == Some(f),
                _ => false,
            },
    {
        let t = trim_vec(chars_of(input).as_slice());
        if t.len() == 0 {
            let msg = ['p', 'a', 't', 'h', ' ', 'i', 's', ' ', 'e', 'm', 'p', 't', 'y'];
            assert(msg@ =~= path_is_empty_message());
            return Err(VaultError::InvalidPath(string_of(&msg)));
        }
        let rel = if t[0] == '/' {
            strip_root_exec(chars_of(self.root.as_str()).as_slice(), t.as_slice())
        } else {
            Some(components_exec(t.as_slice()))
        };
        let rel = match rel {
            Some(r) => r,
            None => {
                return Err(VaultError::OutsideVault(string_of(t.as_slice())));
            },
        };
        match walk_exec(&rel) {
            None => Err(VaultError::OutsideVault(string_of(t.as_slice()))),
            Some(parts) => {
                if parts.len() == 0 {
                    Err(VaultError::InvalidPath(string_of(t.as_slice())))
                } else {
                    Ok(join_slash_owned(&parts))
                }
            },
        }
    }

    /// Normalize, and give the path a `.md` extension when it has none.
    pub fn normalize_note(&self, input: &str) -> (r: Result<String, VaultError>)
        ensures
            match (r, normalize_note_spec(self.root_view(), input@)) {
                (Ok(p), Ok(q)) => p@ == q,
                (Err(e), Err(f)) => fault_of(e) == Some(f),
                _ => false,
            },
    {
        let path = match self.normalize(input) {
            Ok(p) => p,
            Err(e) => {
                return Err(e);
            },
        };
        let pc = chars_of(path.as_str());
        let a = after_last_exec(pc.as_slice(), '/');
        let name = slice_of(pc.as_slice(), a, pc.len());
        assert(name@ == file_name(pc@));
        let d = after_last_exec(name.as_slice(), '.');
        if d > 0 && is_note_ext_exec(slice_of(name.as_slice(), d, name.len()).as_slice()) {
            Ok(path)
        } else {
            let mut out = pc;
            out.push('.');
            out.push('m');
            out.push('d');
            Ok(string_of(out.as_slice()))
        }
    }

    /// Absolute path for a vault-relative path.
    pub fn absolute(&self, relative: &str) -> (r: Result<String, VaultError>)
        ensures
            match (r, normalize_spec(self.root_view(), relative@)) {
                (Ok(p), Ok(q)) => p@ == join_root(self.root_view(), q),
                (Err(e), Err(f)) => fault_of(e) == Some(f),
                _ => false,
            },
    {
        let rel = match self.normalize(relative) {
            Ok(p) => p,
            Err(e) => {
                return Err(e);
            },
        };
        let mut out = chars_of(self.root.as_str());
        let rc = chars_of(rel.as_str());
        if out.len() > 0 && out[out.len() - 1] != '/' {
            out.push('/');
        }
        let ghost before = out@;
        let mut more = rc;
        out.append(&mut more);
        Ok(string_of(out.as_slice()))
    }

    /// A file path relative to the vault root, `/`-separated.
    pub fn relative_of(&self, path: &str) -> (r: Option<String>)
        ensures
            crate::links::opt_view(r) == relative_of_spec(self.root_view(), path@),
    {
        match strip_root_exec(chars_of(self.root.as_str()).as_slice(), chars_of(path).as_slice()) {
            Some(rest) => Some(join_slash_owned(&rest)),
            None => None,
        }
    }
}

// ---------------------------------------------------------------------------
// listing
// ---------------------------------------------------------------------------

/// Relative paths of the walked files `k..` that `keep` selects.
pub open spec fn relatives_from(root: Seq<char>, files: Seq<Seq<char>>, notes: bool, k: int) -> Seq<
    Seq<char>,
>
    decreases files.len() - k,
{
    if k < 0 || k >= files.len() {
        seq![]
    } else {
        (if has_note_extension(files[k]) == notes {
            match relative_of_spec(root, files[k]) {
                Some(r) => seq![r],
                None => seq![],
            }
        } else {
            seq![]
        }) + relatives_from(root, files, notes, k + 1)
    }
}

/// Relative paths of the walked note files `k..` whose contents are not on
/// this machine.
pub open spec fn unavailable_from(root: Seq<char>, files: Seq<(Seq<char>, bool)>, k: int) -> Seq<
    Seq<char>,
>
    decreases files.len() - k,
{
    if k < 0 || k >= files.len() {
        seq![]
    } else {
        (if has_note_extension(files[k].0) && files[k].1 {
            match relative_of_spec(root, files[k].0) {
                Some(r) => seq![r],
                None => seq![],
            }
        } else {
            seq![]
        }) + unavailable_from(root, files, k + 1)
    }
}

/// What a walk of the vault saw of one file: its path, size in bytes and
/// modification time in milliseconds.
pub struct FileStat {
    pub path: String,
    pub size: u64,
    pub modified: Option<u64>,
}

pub open spec fn stat_view(f: FileStat) -> (Seq<char>, u64, Option<u64>) {
    (f.path@, f.size, f.modified)
}

/// Count, wrapped byte total and newest modification time of the note files
/// among the first `k` entries.
pub open spec fn note_totals(files: Seq<(Seq<char>, u64, Option<u64>)>, k: int) -> (nat, u64, u64)
    decreases k,
{
    if k <= 0 || k > files.len() {
        (0, 0, 0)
    } else {
        let t = note_totals(files, k - 1);
        let f = files[k - 1];
        if has_note_extension(f.0) {
            let m: u64 = match f.2 {
                Some(v) => v,
                None => 0,
            };
            (
                t.0 + 1,
                vstd::wrapping::u64_specs::wrapping_add(t.1, f.1),
                if m > t.2 {
                    m
                } else {
                    t.2
                },
            )
        } else {
            t
        }
    }
}

/// A cheap signature of the vault's state: the note count, total size and
/// newest modification time, mixed with distinct multipliers in wrapping
/// arithmetic.
pub open spec fn fingerprint_spec(files: Seq<(Seq<char>, u64, Option<u64>)>) -> u64 {
    let t = note_totals(files, files.len() as int);
    vstd::wrapping::u64_specs::wrapping_add(
        vstd::wrapping::u64_specs::wrapping_add(
            vstd::wrapping::u64_specs::wrapping_mul(t.0 as u64, 0x9E37_79B9),
            vstd::wrapping::u64_specs::wrapping_mul(t.1, 31),
        ),
        t.2,
    )
}

/// `p` starts with `prefix`.
pub open spec fn has_prefix(p: Seq<char>, prefix: Seq<char>) -> bool {
    occurs_at(p, prefix, 0)
}

pub open spec fn under_folder(paths: Seq<Seq<char>>, prefix: Seq<char>, k: int) -> Seq<Seq<char>>
    decreases paths.len() - k,
{
    if k < 0 || k >= paths.len() {
        seq![]
    } else {
        (if has_prefix(paths[k], prefix) {
            seq![paths[k]]
        } else {
            seq![]
        }) + under_folder(paths, prefix, k + 1)
    }
}

impl Vault {
    /// Relative paths of the note files among the walked ones (in the order
    /// given: the walk's sorted order).
    pub fn list_notes(&self, files: &Vec<String>) -> (r: Vec<String>)
        ensures
            strings_view(r@) == relatives_from(self.root_view(), strings_view(files@), true, 0),
    {
        self.select(files, true)
    }

    /// Relative paths of the non-note files (images, PDFs, attachments) among
    /// the walked ones.
    pub fn list_attachments(&self, files: &Vec<String>) -> (r: Vec<String>)
        ensures
            strings_view(r@) == relatives_from(self.root_view(), strings_view(files@), false, 0),
    {
        self.select(files, false)
    }

    fn select(&self, files: &Vec<String>, notes: bool) -> (r: Vec<String>)
        ensures
            strings_view(r@) == relatives_from(self.root_view(), strings_view(files@), notes, 0),
    {
        let ghost fv = strings_view(files@);
        let mut out: Vec<String> = Vec::new();
        let mut k: usize = 0;
        while k < files.len()
            invariant
                k <= files@.len(),
                fv == strings_view(files@),
                strings_view(out@) + relatives_from(self.root_view(), fv, notes, k as int)
                    == relatives_from(self.root_view(), fv, notes, 0),
            decreases files@.len() - k,
        {
            let ghost before = strings_view(out@);
            assert(fv[k as int] == files@[k as int]@);
            if is_note_path(files[k].as_str()) == notes {
                match self.relative_of(files[k].as_str()) {
                    Some(r) => {
                        out.push(r);
                        assert(strings_view(out@) =~= before.push(out@[out@.len() - 1]@));
                    },
                    None => {},
                }
            }
            assert(strings_view(out@) + relatives_from(self.root_view(), fv, notes, k + 1) =~= before
                + relatives_from(self.root_view(), fv, notes, k as int));
            k += 1;
        }
        assert(strings_view(out@) + relatives_from(self.root_view(), fv, notes, k as int)
            =~= strings_view(out@));
        out
    }

    /// Notes whose contents are not on this machine, from the walked files
    /// and whether each is a cloud placeholder.
    pub fn list_unavailable(&self, files: &Vec<(String, bool)>) -> (r: Vec<String>)
        ensures
            strings_view(r@) == unavailable_from(
                self.root_view(),
                files@.map_values(|f: (String, bool)| (f.0@, f.1)),
                0,
            ),
    {
        let ghost fv = files@.map_values(|f: (String, bool)| (f.0@, f.1));
        let mut out: Vec<String> = Vec::new();
        let mut k: usize = 0;
        while k < files.len()
            invariant
                k <= files@.len(),
                fv == files@.map_values(|f: (String, bool)| (f.0@, f.1)),
                strings_view(out@) + unavailable_from(self.root_view(), fv, k as int)
                    == unavailable_from(self.root_view(), fv, 0),
            decreases files@.len() - k,
        {
            let ghost before = strings_view(out@);
            assert(fv[k as int] == (files@[k as int].0@, files@[k as int].1));
            if is_note_path(files[k].0.as_str()) && files[k].1 {
                match self.relative_of(files[k].0.as_str()) {
                    Some(r) => {
                        out.push(r);
                        assert(strings_view(out@) =~= before.push(out@[out@.len() - 1]@));
                    },
                    None => {},
                }
            }
            assert(strings_view(out@) + unavailable_from(self.root_view(), fv, k + 1) =~= before
                + unavailable_from(self.root_view(), fv, k as int));
            k += 1;
        }
        assert(strings_view(out@) + unavailable_from(self.root_view(), fv, k as int)
            =~= strings_view(out@));
        out
    }

    /// A cheap signature of the vault's current state, from the walked
    /// files' metadata (no contents), so callers can skip rebuilding an index
    /// when nothing changed on disk.
    pub fn fingerprint(&self, files: &Vec<FileStat>) -> (r: u64)
        ensures
            r == fingerprint_spec(files@.map_values(|f: FileStat| stat_view(f))),
    {
        let ghost fv = files@.map_values(|f: FileStat| stat_view(f));
        let mut count: u64 = 0;
        let mut newest: u64 = 0;
        let mut bytes: u64 = 0;
        let mut k: usize = 0;
        while k < files.len()
            invariant
                k <= files@.len(),
                fv == files@.map_values(|f: FileStat| stat_view(f)),
                note_totals(fv, k as int) == (count as nat, bytes, newest),
                count <= k,
            decreases files@.len() - k,
        {
            assert(fv[k as int] == stat_view(files@[k as int]));
            if is_note_path(files[k].path.as_str()) {
                let m: u64 = match files[k].modified {
                    Some(v) => v,
                    None => 0,
                };
                count += 1;
                bytes = bytes.wrapping_add(files[k].size);
                newest = if m > newest {
                    m
                } else {
                    newest
                };
            }
            k += 1;
        }
        count.wrapping_mul(0x9E37_79B9).wrapping_add(bytes.wrapping_mul(31)).wrapping_add(newest)
    }

    /// Note paths inside a folder, at any depth, among the vault's notes.
    pub fn notes_under(&self, folder: &str, notes: &Vec<String>) -> (r: Result<Vec<String>, VaultError>)
        ensures
            match (r, normalize_spec(self.root_view(), folder@)) {
                (Ok(v), Ok(p)) => strings_view(v@) == under_folder(
                    strings_view(notes@),
                    p.push('/'),
                    0,
                ),
                (Err(e), Err(f)) => fault_of(e) == Some(f),
                _ => false,
            },
    {
        let path = match self.normalize(folder) {
            Ok(p) => p,
            Err(e) => {
                return Err(e);
            },
        };
        let mut prefix = chars_of(path.as_str());
        prefix.push('/');
        let ghost nv = strings_view(notes@);
        let mut out: Vec<String> = Vec::new();
        let mut k: usize = 0;
        while k < notes.len()
            invariant
                k <= notes@.len(),
                nv == strings_view(notes@),
                strings_view(out@) + under_folder(nv, prefix@, k as int) == under_folder(
                    nv,
                    prefix@,
                    0,
                ),
            decreases notes@.len() - k,
        {
            let ghost before = strings_view(out@);
            assert(nv[k as int] == notes@[k as int]@);
            if crate::text::starts_with(chars_of(notes[k].as_str()).as_slice(), prefix.as_slice()) {
                out.push(crate::index::copy_string(&notes[k]));
                assert(strings_view(out@) =~= before.push(nv[k as int]));
            }
            assert(strings_view(out@) + under_folder(nv, prefix@, k + 1) =~= before + under_folder(
                nv,
                prefix@,
                k as int,
            ));
            k += 1;
        }
        assert(strings_view(out@) + under_folder(nv, prefix@, k as int) =~= strings_view(out@));
        Ok(out)
    }
}

// ---------------------------------------------------------------------------
// appending
// ---------------------------------------------------------------------------

/// `existing` followed by `text`, with a line break between them when
/// `existing` does not end in one.
pub open spec fn appended(existing: Seq<char>, text: Seq<char>) -> Seq<char> {
    if existing.len() > 0 && existing.last() != '\n' {
        existing.push('\n') + text
    } else {
        existing + text
    }
}

/// ASCII case-insensitive equality (`str::eq_ignore_ascii_case`).
pub open spec fn ascii_eq_ignore(a: Seq<char>, b: Seq<char>) -> bool {
    a.len() == b.len() && forall|k: int|
        0 <= k < a.len() ==> crate::yaml::ascii_lower(#[trigger] a[k]) == crate::yaml::ascii_lower(b[k])
}

/// The first heading from `k` on whose text is `h`, ignoring ASCII case.
pub open spec fn find_heading(hs: Seq<SpecHeading>, h: Seq<char>, k: int) -> Option<int>
    decreases hs.len() - k,
{
    if k < 0 || k >= hs.len() {
        None
    } else if ascii_eq_ignore(hs[k].text, h) {
        Some(k)
    } else {
        find_heading(hs, h, k + 1)
    }
}

/// Where the section of a heading ends: just before the next heading (from
/// `k` on) below it at the same level or higher, else after the last line.
pub open spec fn section_end(hs: Seq<SpecHeading>, line: nat, level: nat, k: int, n: int) -> int
    decreases hs.len() - k,
{
    if k < 0 || k >= hs.len() {
        n
    } else if hs[k].line > line && hs[k].level <= level {
        hs[k].line - 1
    } else {
        section_end(hs, line, level, k + 1, n)
    }
}

proof fn lemma_section_end_from(hs: Seq<SpecHeading>, line: nat, level: nat, k: int, n: int)
    requires
        0 <= k <= hs.len(),
        forall|a: int, b: int| 0 <= a < b < hs.len() ==> (#[trigger] hs[a]).line <= (#[trigger] hs[b]).line,
        forall|a: int| 0 <= a < hs.len() ==> (#[trigger] hs[a]).line <= n,
    ensures
        section_end(hs, line, level, k, n) == n || exists|q: int|
            k <= q < hs.len() && (#[trigger] hs[q]).line > line && hs[q].level <= level && section_end(
                hs,
                line,
                level,
                k,
                n,
            ) == hs[q].line - 1,
        forall|i: int|
            k <= i < hs.len() && (#[trigger] hs[i]).line > line && hs[i].level <= level ==> section_end(
                hs,
                line,
                level,
                k,
                n,
            ) <= hs[i].line - 1,
    decreases hs.len() - k,
{
    if k < hs.len() {
        lemma_section_end_from(hs, line, level, k + 1, n);
        if hs[k].line > line && hs[k].level <= level {
            assert forall|i: int|
                k <= i < hs.len() && (#[trigger] hs[i]).line > line && hs[i].level <= level implies section_end(
                hs,
                line,
                level,
                k,
                n,
            ) <= hs[i].line - 1 by {
                if i > k {
                    assert(hs[k].line <= hs[i].line);
                }
            }
        }
    }
}

/// A heading's section runs to just before the next heading, below it, at
/// the same level or higher (or to the end of the body): text appended to the
/// section lands after every deeper heading that comes before that one, and
/// before any heading of the same level or higher. Headings are taken in the
/// order of their lines, as a scan reports them.
pub proof fn lemma_section_end(hs: Seq<SpecHeading>, line: nat, level: nat, n: int)
    requires
        forall|a: int, b: int| 0 <= a < b < hs.len() ==> (#[trigger] hs[a]).line <= (#[trigger] hs[b]).line,
        forall|a: int| 0 <= a < hs.len() ==> (#[trigger] hs[a]).line <= n,
    ensures
        forall|i: int|
            0 <= i < hs.len() && (#[trigger] hs[i]).line > line && hs[i].level <= level ==> section_end(
                hs,
                line,
                level,
                0,
                n,
            ) < hs[i].line,
        forall|j: int|
            0 <= j < hs.len() && (#[trigger] hs[j]).line > line && hs[j].level > level && (forall|i: int|
                0 <= i < hs.len() && line < (#[trigger] hs[i]).line <= hs[j].line ==> hs[i].level > level)
                ==> section_end(hs, line, level, 0, n) >= hs[j].line,
{
    lemma_section_end_from(hs, line, level, 0, n);
    assert forall|j: int|
        0 <= j < hs.len() && (#[trigger] hs[j]).line > line && hs[j].level > level && (forall|i: int|
            0 <= i < hs.len() && line < (#[trigger] hs[i]).line <= hs[j].line ==> hs[i].level > level)
            implies section_end(hs, line, level, 0, n) >= hs[j].line by {
        if section_end(hs, line, level, 0, n) != n {
            let q = choose|q: int|
                0 <= q < hs.len() && (#[trigger] hs[q]).line > line && hs[q].level <= level && section_end(
                    hs,
                    line,
                    level,
                    0,
                    n,
                ) == hs[q].line - 1;
            if hs[q].line <= hs[j].line {
                assert(hs[q].level > level);
            }
        }
    }
}

/// Lines with trailing blank ones dropped.
pub open spec fn drop_blank_tail(s: Seq<Seq<char>>) -> Seq<Seq<char>>
    decreases s.len(),
{
    if s.len() > 0 && trim(s.last()).len() == 0 {
        drop_blank_tail(s.drop_last())
    } else {
        s
    }
}

/// Lines joined with `\n` between them.
pub open spec fn join_lines(parts: Seq<Seq<char>>) -> Seq<char>
    decreases parts.len(),
{
    if parts.len() == 0 {
        seq![]
    } else if parts.len() == 1 {
        parts[0]
    } else {
        join_lines(parts.drop_last()) + seq!['\n'] + parts.last()
    }
}

/// The body's lines with `text` added at the end of the section that ends
/// before line index `end`, a blank line before it and, when more follows,
/// after it.
pub open spec fn insert_section(ls: Seq<Seq<char>>, end: int, text: Seq<char>) -> Seq<Seq<char>> {
    drop_blank_tail(ls.subrange(0, end)) + seq![seq![]] + lines(text) + (if end < ls.len() {
        seq![seq![]] + ls.subrange(end, ls.len() as int)
    } else {
        seq![]
    })
}

/// The new body after appending `text` under heading `k`.
pub open spec fn body_with_section(body: Seq<char>, hs: Seq<SpecHeading>, k: int, text: Seq<char>) -> Seq<
    char,
> {
    let ls = lines(body);
    let end = section_end(hs, hs[k].line, hs[k].level, 0, ls.len() as int);
    join_lines(insert_section(ls, end, text)).push('\n')
}

/// Every heading of the note lies within its body.
pub open spec fn headings_in_body(note: Note) -> bool {
    forall|k: int|
        0 <= k < note.scan@.headings.len() ==> (#[trigger] note.scan@.headings[k]).line <= lines(
            note.body@,
        ).len()
}

fn join_lines_exec(parts: &Vec<Vec<char>>) -> (r: Vec<char>)
    ensures
        r@ == join_lines(parts@.map_values(|q: Vec<char>| q@)),
{
    let ghost pv = parts@.map_values(|q: Vec<char>| q@);
    let mut out: Vec<char> = Vec::new();
    let mut k: usize = 0;
    while k < parts.len()
        invariant
            k <= parts@.len(),
            pv == parts@.map_values(|q: Vec<char>| q@),
            out@ == join_lines(pv.subrange(0, k as int)),
        decreases parts@.len() - k,
    {
        let ghost before = out@;
        if k > 0 {
            out.push('\n');
        }
        let mut piece = slice_of(parts[k].as_slice(), 0, parts[k].len());
        out.append(&mut piece);
        proof {
            assert(pv.subrange(0, k + 1).drop_last() =~= pv.subrange(0, k as int));
            assert(pv.subrange(0, k + 1).last() == parts@[k as int]@);
            if k == 0 {
                assert(pv.subrange(0, 1)[0] == parts@[0]@);
                assert(out@ =~= parts@[0]@);
            } else {
                assert(out@ =~= before + seq!['\n'] + parts@[k as int]@);
            }
        }
        k += 1;
    }
    assert(pv.subrange(0, k as int) =~= pv);
    out
}

pub(crate) fn ascii_eq_ignore_exec(a: &[char], b: &[char]) -> (r: bool)
    ensures
        r == ascii_eq_ignore(a@, b@),
{
    if a.len() != b.len() {
        return false;
    }
    let mut k: usize = 0;
    while k < a.len()
        invariant
            k <= a@.len(),
            a@.len() == b@.len(),
            forall|m: int| 0 <= m < k ==> crate::yaml::ascii_lower(#[trigger] a@[m]) == crate::yaml::ascii_lower(b@[m]),
        decreases a@.len() - k,
    {
        let x = a[k];
        let y = b[k];
        let lx = if 'A' <= x && x <= 'Z' { ((x as u32) + 32) as u8 as char } else { x };
        let ly = if 'A' <= y && y <= 'Z' { ((y as u32) + 32) as u8 as char } else { y };
        assert(lx == crate::yaml::ascii_lower(x)) by {
            if 'A' <= x && x <= 'Z' {
                assert(((x as u32) + 32) as u8 as char == ((x as u32) + 32) as char);
            }
        }
        assert(ly == crate::yaml::ascii_lower(y)) by {
            if 'A' <= y && y <= 'Z' {
                assert(((y as u32) + 32) as u8 as char == ((y as u32) + 32) as char);
            }
        }
        if lx != ly {
            return false;
        }
        k += 1;
    }
    true
}

impl Vault {
    /// The path and new text of a note after appending `text` to its end:
    /// the note's existing text (empty when there is none yet) with a line
    /// break before `text` when needed, ending in a line break.
    pub fn append_note(&self, relative: &str, existing: &str, text: &str) -> (r: Result<(String, String), VaultError>)
        ensures
            match (r, normalize_note_spec(self.root_view(), relative@)) {
                (Ok((p, c)), Ok(q)) => p@ == q && c@ == with_trailing_newline(appended(existing@, text@)),
                (Err(e), Err(f)) => fault_of(e) == Some(f),
                _ => false,
            },
    {
        let path = match self.normalize_note(relative) {
            Ok(p) => p,
            Err(e) => {
                return Err(e);
            },
        };
        let mut merged = chars_of(existing);
        if merged.len() > 0 && merged[merged.len() - 1] != '\n' {
            merged.push('\n');
        }
        let ghost before = merged@;
        let mut t = chars_of(text);
        merged.append(&mut t);
        assert(merged@ == appended(existing@, text@));
        let content = ensure_trailing_newline(string_of(merged.as_slice()).as_str());
        Ok((path, content))
    }

    /// The path and new text of a note after appending `text` under one of
    /// its headings, keeping the rest of the note intact: the section runs
    /// until the next heading at the same level or higher.
    #[verifier::loop_isolation(false)]
    pub fn append_under_heading(&self, note: &Note, heading: &str, text: &str) -> (r: Result<(String, String), VaultError>)
        requires
            headings_in_body(*note),
        ensures
            match find_heading(note.scan@.headings, trim(heading@), 0) {
                None => r matches Err(VaultError::HeadingNotFound(h)) && h@ == heading@,
                Some(k) => match (r, normalize_note_spec(self.root_view(), note.meta.path@)) {
                    (Ok((p, c)), Ok(q)) => p@ == q && c@ == with_trailing_newline(
                        crate::frontmatter::compose_spec(
                            crate::yaml::map_view(note.frontmatter@),
                            body_with_section(note.body@, note.scan@.headings, k, text@),
                        ),
                    ),
                    (Err(e), Err(f)) => fault_of(e) == Some(f),
                    _ => false,
                },
            },
    {
        let ghost hs = note.scan@.headings;
        let h = trim_vec(chars_of(heading).as_slice());
        let mut t: usize = 0;
        while t < note.scan.headings.len()
            invariant
                t <= note.scan.headings@.len(),
                hs == note.scan@.headings,
                hs.len() == note.scan.headings@.len(),
                forall|i: int| 0 <= i < hs.len() ==> #[trigger] hs[i] == note.scan.headings@[i]@,
                find_heading(hs, h@, t as int) == find_heading(hs, h@, 0),
            decreases note.scan.headings@.len() - t,
        {
            assert(hs[t as int] == note.scan.headings@[t as int]@);
            if ascii_eq_ignore_exec(chars_of(note.scan.headings[t].text.as_str()).as_slice(), h.as_slice()) {
                break;
            }
            t += 1;
        }
        if t >= note.scan.headings.len() {
            return Err(VaultError::HeadingNotFound(crate::index::copy_string(&String::from_str(heading))));
        }
        let ls = split_lines(chars_of(note.body.as_str()).as_slice());
        let ghost lv = ls@.map_values(|l: Vec<char>| l@);
        let target_line = note.scan.headings[t].line;
        let target_level = note.scan.headings[t].level;
        let mut end = ls.len();
        let mut j: usize = 0;
        while j < note.scan.headings.len()
            invariant
                j <= note.scan.headings@.len(),
                hs == note.scan@.headings,
                hs.len() == note.scan.headings@.len(),
                forall|i: int| 0 <= i < hs.len() ==> #[trigger] hs[i] == note.scan.headings@[i]@,
                section_end(hs, target_line as nat, target_level as nat, j as int, ls@.len() as int)
                    == section_end(hs, target_line as nat, target_level as nat, 0, ls@.len() as int),
                end == ls@.len(),
            decreases note.scan.headings@.len() - j,
        {
            assert(hs[j as int] == note.scan.headings@[j as int]@);
            let hh = &note.scan.headings[j];
            if hh.line > target_line && hh.level <= target_level {
                end = hh.line - 1;
                break;
            }
            j += 1;
        }
        assert(end == section_end(hs, target_line as nat, target_level as nat, 0, ls@.len() as int));
        assert(end <= ls@.len());
        let mut rebuilt: Vec<Vec<char>> = Vec::new();
        let mut k: usize = 0;
        while k < end
            invariant
                k <= end <= ls@.len(),
                lv == ls@.map_values(|l: Vec<char>| l@),
                rebuilt@.map_values(|q: Vec<char>| q@) == lv.subrange(0, k as int),
            decreases end - k,
        {
            let copy = slice_of(ls[k].as_slice(), 0, ls[k].len());
            assert(copy@ =~= lv[k as int]);
            let ghost before = rebuilt@.map_values(|q: Vec<char>| q@);
            rebuilt.push(copy);
            assert(rebuilt@.map_values(|q: Vec<char>| q@) =~= before.push(copy@));
            assert(rebuilt@.map_values(|q: Vec<char>| q@) =~= lv.subrange(0, k + 1));
            k += 1;
        }
        while rebuilt.len() > 0 && trim_vec(rebuilt[rebuilt.len() - 1].as_slice()).len() == 0
            invariant
                drop_blank_tail(rebuilt@.map_values(|q: Vec<char>| q@)) == drop_blank_tail(
                    lv.subrange(0, end as int),
                ),
            decreases rebuilt@.len(),
        {
            let ghost before = rebuilt@.map_values(|q: Vec<char>| q@);
            rebuilt.pop();
            assert(rebuilt@.map_values(|q: Vec<char>| q@) =~= before.drop_last());
        }
        let ghost head = rebuilt@.map_values(|q: Vec<char>| q@);
        assert(head == drop_blank_tail(lv.subrange(0, end as int)));
        let empty: Vec<char> = Vec::new();
        assert(empty@ =~= Seq::<char>::empty());
        rebuilt.push(empty);
        assert(rebuilt@.map_values(|q: Vec<char>| q@) =~= head.push(seq![]));
        let tl = split_lines(chars_of(text).as_slice());
        let mut m: usize = 0;
        let ghost mid = rebuilt@.map_values(|q: Vec<char>| q@);
        while m < tl.len()
            invariant
                m <= tl@.len(),
                rebuilt@.map_values(|q: Vec<char>| q@) == mid + tl@.map_values(|l: Vec<char>| l@).subrange(0, m as int),
            decreases tl@.len() - m,
        {
            let copy = slice_of(tl[m].as_slice(), 0, tl[m].len());
            assert(copy@ =~= tl@[m as int]@);
            let ghost before = rebuilt@.map_values(|q: Vec<char>| q@);
            rebuilt.push(copy);
            assert(rebuilt@.map_values(|q: Vec<char>| q@) =~= before.push(copy@));
            assert(rebuilt@.map_values(|q: Vec<char>| q@) =~= mid + tl@.map_values(|l: Vec<char>| l@).subrange(0, m + 1));
            m += 1;
        }
        assert(tl@.map_values(|l: Vec<char>| l@).subrange(0, m as int) =~= tl@.map_values(|l: Vec<char>| l@));
        let ghost mid2 = rebuilt@.map_values(|q: Vec<char>| q@);
        assert(mid2 =~= head + seq![seq![]] + lines(text@));
        if end < ls.len() {
            let empty2: Vec<char> = Vec::new();
            assert(empty2@ =~= Seq::<char>::empty());
            rebuilt.push(empty2);
            assert(rebuilt@.map_values(|q: Vec<char>| q@) =~= mid2.push(seq![]));
            let mut x = end;
            let ghost mid3 = rebuilt@.map_values(|q: Vec<char>| q@);
            while x < ls.len()
                invariant
                    end <= x <= ls@.len(),
                    lv == ls@.map_values(|l: Vec<char>| l@),
                    rebuilt@.map_values(|q: Vec<char>| q@) == mid3 + lv.subrange(end as int, x as int),
                decreases ls@.len() - x,
            {
                let copy = slice_of(ls[x].as_slice(), 0, ls[x].len());
                assert(copy@ =~= lv[x as int]);
                let ghost before = rebuilt@.map_values(|q: Vec<char>| q@);
                rebuilt.push(copy);
                assert(rebuilt@.map_values(|q: Vec<char>| q@) =~= before.push(copy@));
                assert(rebuilt@.map_values(|q: Vec<char>| q@) =~= mid3 + lv.subrange(end as int, x + 1));
                x += 1;
            }
        }
        proof {
            if end < ls@.len() {
                assert(rebuilt@.map_values(|q: Vec<char>| q@) =~= mid2 + (seq![seq![]] + lv.subrange(
                    end as int,
                    lv.len() as int,
                )));
            } else {
                assert(rebuilt@.map_values(|q: Vec<char>| q@) =~= mid2 + Seq::<Seq<char>>::empty());
            }
        }
        assert(rebuilt@.map_values(|q: Vec<char>| q@) =~= insert_section(lv, end as int, text@));
        let mut body = join_lines_exec(&rebuilt);
        body.push('\n');
        let content = crate::frontmatter::compose(&note.frontmatter, string_of(body.as_slice()).as_str());
        let path = match self.normalize_note(note.meta.path.as_str()) {
            Ok(p) => p,
            Err(e) => {
                return Err(e);
            },
        };
        Ok((path, ensure_trailing_newline(content.as_str())))
    }
}

// ---------------------------------------------------------------------------
// moving, trashing, walking
// ---------------------------------------------------------------------------

/// `to` is `from` itself or lies inside it.
pub open spec fn inside_or_same(from: Seq<char>, to: Seq<char>) -> bool {
    to == from || has_prefix(to, from.push('/'))
}

impl Vault {
    /// Both ends of a folder move, checked: each normalized, and the target
    /// neither the folder itself nor inside it (moving a folder under itself
    /// would recurse forever).
    pub fn check_folder_move(&self, from: &str, to: &str) -> (r: Result<(String, String), VaultError>)
        ensures
            match (normalize_spec(self.root_view(), from@), normalize_spec(self.root_view(), to@)) {
                (Err(f), _) => r matches Err(e) && fault_of(e) == Some(f),
                (Ok(_), Err(f)) => r matches Err(e) && fault_of(e) == Some(f),
                (Ok(a), Ok(b)) => if inside_or_same(a, b) {
                    r matches Err(VaultError::FolderIntoItself(s)) && s@ == a
                } else {
                    r matches Ok((x, y)) && x@ == a && y@ == b
                },
            },
    {
        let from_path = match self.normalize(from) {
            Ok(p) => p,
            Err(e) => {
                return Err(e);
            },
        };
        let to_path = match self.normalize(to) {
            Ok(p) => p,
            Err(e) => {
                return Err(e);
            },
        };
        let fc = chars_of(from_path.as_str());
        let tc = chars_of(to_path.as_str());
        let mut prefix = slice_of(fc.as_slice(), 0, fc.len());
        prefix.push('/');
        assert(prefix@ =~= fc@.push('/'));
        if vec_eq(tc.as_slice(), fc.as_slice()) || crate::text::starts_with(tc.as_slice(), prefix.as_slice()) {
            return Err(VaultError::FolderIntoItself(from_path));
        }
        Ok((from_path, to_path))
    }
}

/// Where trashed notes go. Dot-prefixed, so the walker already ignores it.
pub const TRASH_DIR: &'static str = ".trash";

/// The file name a trashed note gets: its own name first, then with ` 2`,
/// ` 3`, ... before the extension while earlier names are taken.
pub open spec fn trash_name_spec(path: Seq<char>, suffix: int) -> Seq<char> {
    let name = file_name(path);
    let d = after_last(name, '.', name.len() as int);
    if suffix < 2 {
        name
    } else if d > 0 {
        name.subrange(0, d - 1) + seq![' '] + crate::frontmatter::int_text(suffix) + name.subrange(
            d - 1,
            name.len() as int,
        )
    } else {
        name + seq![' '] + crate::frontmatter::int_text(suffix)
    }
}

proof fn lemma_nat_text_value(n: nat)
    ensures
        crate::yaml::digits_value(crate::frontmatter::nat_text(n)) == n,
        crate::frontmatter::nat_text(n).len() >= 1,
    decreases n,
{
    let t = crate::frontmatter::nat_text(n);
    if n < 10 {
        assert(t.drop_last() =~= Seq::<char>::empty());
        assert(crate::yaml::digits_value(t.drop_last()) == 0);
    } else {
        lemma_nat_text_value(n / 10);
        let d = (n % 10) as int;
        assert(t.drop_last() =~= crate::frontmatter::nat_text(n / 10));
        assert(t.last() == crate::frontmatter::digit_char(d));
        assert(crate::frontmatter::digit_char(d) as int - '0' as int == d);
        assert(n == 10 * (n / 10) + n % 10);
    }
}

/// Distinct suffixes give distinct numerals.
proof fn lemma_int_text_injective(a: int, b: int)
    requires
        0 <= a,
        0 <= b,
        crate::frontmatter::int_text(a) == crate::frontmatter::int_text(b),
    ensures
        a == b,
{
    lemma_nat_text_value(a as nat);
    lemma_nat_text_value(b as nat);
}

/// Trashing never reuses a name: the names tried for one note, its own and
/// then with ` 2`, ` 3`, ..., are all different, so moving a note to the
/// trash never replaces one already there.
pub proof fn lemma_trash_names_distinct(path: Seq<char>, s: int, t: int)
    requires
        1 <= s < t,
    ensures
        trash_name_spec(path, s) != trash_name_spec(path, t),
{
    let name = file_name(path);
    let d = after_last(name, '.', name.len() as int);
    crate::paths::lemma_after_last(name, '.', name.len() as int);
    let y = crate::frontmatter::int_text(t);
    lemma_nat_text_value(t as nat);
    let a = trash_name_spec(path, s);
    let b = trash_name_spec(path, t);
    if s < 2 {
        assert(b.len() > a.len());
    } else {
        let x = crate::frontmatter::int_text(s);
        lemma_nat_text_value(s as nat);
        if a == b {
            if d > 0 {
                let pre = name.subrange(0, d - 1) + seq![' '];
                let post = name.subrange(d - 1, name.len() as int);
                assert(a == pre + x + post);
                assert(b == pre + y + post);
                assert(x.len() == y.len());
                assert(x =~= a.subrange(pre.len() as int, (pre.len() + x.len()) as int));
                assert(y =~= b.subrange(pre.len() as int, (pre.len() + y.len()) as int));
            } else {
                let pre = name + seq![' '];
                assert(a == pre + x);
                assert(b == pre + y);
                assert(x =~= a.subrange(pre.len() as int, a.len() as int));
                assert(y =~= b.subrange(pre.len() as int, b.len() as int));
            }
            lemma_int_text_injective(s, t);
        }
    }
}


/// The `suffix`th file name tried for a note moved to the trash.
pub fn trash_name(path: &str, suffix: u32) -> (r: String)
    ensures
        r@ == trash_name_spec(path@, suffix as int),
{
    let pc = chars_of(path);
    let a = after_last_exec(pc.as_slice(), '/');
    let name = slice_of(pc.as_slice(), a, pc.len());
    assert(name@ == file_name(path@));
    if suffix < 2 {
        return string_of(name.as_slice());
    }
    let d = after_last_exec(name.as_slice(), '.');
    let digits = crate::frontmatter::int_chars(suffix as i64);
    let mut out: Vec<char>;
    if d > 0 {
        out = slice_of(name.as_slice(), 0, d - 1);
        out.push(' ');
        let mut dg = digits;
        out.append(&mut dg);
        let mut ext = slice_of(name.as_slice(), d - 1, name.len());
        out.append(&mut ext);
    } else {
        out = slice_of(name.as_slice(), 0, name.len());
        out.push(' ');
        let mut dg = digits;
        out.append(&mut dg);
    }
    assert(out@ =~= trash_name_spec(path@, suffix as int));
    string_of(out.as_slice())
}

/// The last numbered name trashing tries before it gives up.
pub const TRASH_LAST_SUFFIX: u32 = 998;

/// What trashing does once it knows whether the trash already holds the name
/// it tried: move the note there, try the next name, or give up with the
/// vault path of the note's own name in the trash.
pub enum TrashStep {
    MoveTo(String),
    Next(u32),
    Full(String),
}

/// One step of choosing a trash name: the name for `suffix` is used when it
/// is free; a taken one leads to the next suffix, up to the last, after which
/// the trash counts as full for this name.
pub fn trash_step(path: &str, suffix: u32, taken: bool) -> (r: TrashStep)
    requires
        1 <= suffix <= TRASH_LAST_SUFFIX,
    ensures
        match r {
            TrashStep::MoveTo(name) => !taken && name@ == trash_name_spec(path@, suffix as int),
            TrashStep::Next(next) => taken && suffix < TRASH_LAST_SUFFIX && next == suffix + 1,
            TrashStep::Full(p) => taken && suffix == TRASH_LAST_SUFFIX && p@ == trash_dir_name()
                + seq!['/'] + trash_name_spec(path@, 1),
        },
{
    if !taken {
        TrashStep::MoveTo(trash_name(path, suffix))
    } else if suffix < TRASH_LAST_SUFFIX {
        TrashStep::Next(suffix + 1)
    } else {
        let mut p: Vec<char> = vec!['.', 't', 'r', 'a', 's', 'h', '/'];
        let first = chars_of(trash_name(path, 1).as_str());
        let ghost head = p@;
        let mut k: usize = 0;
        while k < first.len()
            invariant
                k <= first@.len(),
                p@ == head + first@.subrange(0, k as int),
            decreases first@.len() - k,
        {
            p.push(first[k]);
            k += 1;
            assert(p@ =~= head + first@.subrange(0, k as int));
        }
        assert(head =~= trash_dir_name() + seq!['/']);
        assert(first@.subrange(0, first@.len() as int) =~= first@);
        TrashStep::Full(string_of(p.as_slice()))
    }
}

pub open spec fn skipped_dir_names() -> Seq<Seq<char>> {
    seq![
        seq!['n', 'o', 'd', 'e', '_', 'm', 'o', 'd', 'u', 'l', 'e', 's'],
        seq!['t', 'a', 'r', 'g', 'e', 't'],
        seq!['d', 'i', 's', 't'],
        seq!['.', 'g', 'i', 't'],
        seq!['.', 'o', 'b', 's', 'i', 'd', 'i', 'a', 'n'],
    ]
}

/// The walk skips hidden entries, and directories that are never worth
/// indexing.
pub open spec fn skipped(name: Seq<char>, is_dir: bool) -> bool {
    (name.len() > 0 && name[0] == '.') || (is_dir && skipped_dir_names().contains(name))
}

/// The trash is invisible to the vault: `.trash` starts with a dot, so the
/// walk skips it, and a trashed note leaves listing, search and the link
/// graph while its file stays on disk.
pub proof fn lemma_trash_is_skipped()
    ensures
        skipped(TRASH_DIR@, true),
        trash_dir_name() == TRASH_DIR@,
{
    reveal_strlit(".trash");
}

pub open spec fn trash_dir_name() -> Seq<char> {
    seq!['.', 't', 'r', 'a', 's', 'h']
}


/// Whether the vault walk skips an entry with this file name.
pub fn is_skipped(name: &str, is_dir: bool) -> (r: bool)
    ensures
        r == skipped(name@, is_dir),
{
    let n = chars_of(name);
    if n.len() > 0 && n[0] == '.' {
        return true;
    }
    if !is_dir {
        return false;
    }
    let a = ['n', 'o', 'd', 'e', '_', 'm', 'o', 'd', 'u', 'l', 'e', 's'];
    let b = ['t', 'a', 'r', 'g', 'e', 't'];
    let c = ['d', 'i', 's', 't'];
    let d = ['.', 'g', 'i', 't'];
    let e = ['.', 'o', 'b', 's', 'i', 'd', 'i', 'a', 'n'];
    let ghost names = skipped_dir_names();
    assert(a@ =~= names[0] && b@ =~= names[1] && c@ =~= names[2] && d@ =~= names[3] && e@
        =~= names[4]);
    let found = vec_eq(n.as_slice(), &a) || vec_eq(n.as_slice(), &b) || vec_eq(n.as_slice(), &c)
        || vec_eq(n.as_slice(), &d) || vec_eq(n.as_slice(), &e);
    proof {
        if names.contains(n@) {
            let j = choose|j: int| 0 <= j < names.len() && names[j] == n@;
            assert(j < 5);
        }
        if found {
            if n@ == a@ {
                assert(names[0] == n@);
            } else if n@ == b@ {
                assert(names[1] == n@);
            } else if n@ == c@ {
                assert(names[2] == n@);
            } else if n@ == d@ {
                assert(names[3] == n@);
            } else {
                assert(names[4] == n@);
            }
        }
    }
    found
}

} // verus!
