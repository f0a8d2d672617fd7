//! What the agent-facing tools compute before and after they touch the disk:
//! which notes a listing shows, where a folder move sends each note, the
//! frontmatter a new note starts with, frontmatter updates, and the text
//! that tells an agent how to pick a vault.

use vstd::prelude::*;
use crate::cli::str_opt;
use crate::frontmatter::{compose, compose_spec};
use crate::index::{notes_with_tag_from, tag_needle, IndexedNote, VaultIndex};
use crate::links::strings_view;
use crate::note::NoteMeta;
use crate::text::{
    byte_len, char_width, chars_of, lemma_byte_len_mono, slice_of, starts_with, string_of,
    trim_end_char, trim_end_char_vec, trim_start_char, trim_start_char_vec,
};
use crate::vault::has_prefix;
use crate::yaml::{map_drop, map_get, map_insert, map_put, map_remove, map_view, Entries, Value, Yaml};

verus! {

// ---------------------------------------------------------------------------
// listing notes
// ---------------------------------------------------------------------------

/// The prefix a listing is narrowed to: the folder with `/` trimmed from
/// both ends, then `/`; empty (the whole vault) when nothing is left.
pub open spec fn folder_prefix(folder: Seq<char>) -> Seq<char> {
    let t = trim_end_char(trim_start_char(folder, '/'), '/');
    if t.len() == 0 {
        t
    } else {
        t.push('/')
    }
}

pub open spec fn in_folder(m: NoteMeta, folder: Option<Seq<char>>) -> bool {
    match folder {
        Some(f) => folder_prefix(f).len() == 0 || has_prefix(m.path@, folder_prefix(f)),
        None => true,
    }
}

/// The notes of `ms` inside the folder, in order.
pub open spec fn keep_in_folder(ms: Seq<NoteMeta>, folder: Option<Seq<char>>) -> Seq<NoteMeta>
    decreases ms.len(),
{
    if ms.len() == 0 {
        seq![]
    } else if in_folder(ms.last(), folder) {
        keep_in_folder(ms.drop_last(), folder).push(ms.last())
    } else {
        keep_in_folder(ms.drop_last(), folder)
    }
}

/// The notes a listing draws from: those carrying the tag, or all of them.
pub open spec fn tagged(ns: Seq<IndexedNote>, tag: Option<Seq<char>>) -> Seq<NoteMeta> {
    match tag {
        Some(t) => notes_with_tag_from(ns, tag_needle(t), 0),
        None => ns.map_values(|n: IndexedNote| n.meta),
    }
}

pub open spec fn min(a: int, b: int) -> int {
    if a <= b {
        a
    } else {
        b
    }
}

pub proof fn lemma_keep_len(ms: Seq<NoteMeta>, folder: Option<Seq<char>>)
    ensures
        keep_in_folder(ms, folder).len() <= ms.len(),
    decreases ms.len(),
{
    if ms.len() > 0 {
        lemma_keep_len(ms.drop_last(), folder);
    }
}

fn in_folder_exec(path: &str, prefix: &Option<Vec<char>>) -> (r: bool)
    ensures
        r == match prefix {
            Some(p) => p@.len() == 0 || has_prefix(path@, p@),
            None => true,
        },
{
    match prefix {
        Some(p) => p.len() == 0 || starts_with(chars_of(path).as_slice(), p.as_slice()),
        None => true,
    }
}

fn folder_prefix_exec(folder: &str) -> (r: Vec<char>)
    ensures
        r@ == folder_prefix(folder@),
{
    let a = trim_start_char_vec(chars_of(folder).as_slice(), '/');
    let mut t = trim_end_char_vec(a.as_slice(), '/');
    if t.len() > 0 {
        t.push('/');
    }
    t
}

impl VaultIndex {
    /// Notes for a listing: those carrying `tag` (nested tags included) or
    /// all, narrowed to a folder, at most `limit` of them. Also returns how
    /// many notes there were before the folder and the limit applied.
    pub fn list_notes(&self, folder: Option<&str>, tag: Option<&str>, limit: usize) -> (r: (
        Vec<&NoteMeta>,
        usize,
    ))
        ensures
            r.1 == tagged(self.notes_view(), str_opt(tag)).len(),
            r.0@.map_values(|m: &NoteMeta| *m) == keep_in_folder(
                tagged(self.notes_view(), str_opt(tag)),
                str_opt(folder),
            ).subrange(
                0,
                min(
                    limit as int,
                    keep_in_folder(tagged(self.notes_view(), str_opt(tag)), str_opt(folder)).len()
                        as int,
                ),
            ),
    {
        let ghost ns = self.notes_view();
        let metas: Vec<&NoteMeta> = match tag {
            Some(t) => self.notes_with_tag(t),
            None => {
                let notes = self.notes();
                let mut all: Vec<&NoteMeta> = Vec::new();
                let mut i: usize = 0;
                while i < notes.len()
                    invariant
                        i <= notes@.len(),
                        notes@ == ns,
                        all@.map_values(|m: &NoteMeta| *m) == ns.map_values(
                            |n: IndexedNote| n.meta,
                        ).subrange(0, i as int),
                    decreases notes@.len() - i,
                {
                    let ghost before = all@.map_values(|m: &NoteMeta| *m);
                    all.push(&notes[i].meta);
                    assert(all@.map_values(|m: &NoteMeta| *m) =~= before.push(ns[i as int].meta));
                    assert(all@.map_values(|m: &NoteMeta| *m) =~= ns.map_values(
                        |n: IndexedNote| n.meta,
                    ).subrange(0, i + 1));
                    i += 1;
                }
                assert(ns.map_values(|n: IndexedNote| n.meta).subrange(0, i as int) =~= ns.map_values(
                    |n: IndexedNote| n.meta,
                ));
                all
            },
        };
        let ghost mv = metas@.map_values(|m: &NoteMeta| *m);
        assert(mv == tagged(ns, str_opt(tag)));
        let prefix: Option<Vec<char>> = match folder {
            Some(f) => Some(folder_prefix_exec(f)),
            None => None,
        };
        let ghost fv = str_opt(folder);
        let mut out: Vec<&NoteMeta> = Vec::new();
        let mut k: usize = 0;
        while k < metas.len()
            invariant
                k <= metas@.len(),
                mv == metas@.map_values(|m: &NoteMeta| *m),
                fv == str_opt(folder),
                match prefix {
                    Some(p) => fv matches Some(f) && p@ == folder_prefix(f),
                    None => fv is None,
                },
                out@.len() == min(limit as int, keep_in_folder(mv.subrange(0, k as int), fv).len() as int),
                out@.map_values(|m: &NoteMeta| *m) == keep_in_folder(mv.subrange(0, k as int), fv).subrange(
                    0,
                    out@.len() as int,
                ),
            decreases metas@.len() - k,
        {
            let ghost kept = keep_in_folder(mv.subrange(0, k as int), fv);
            let ghost before = out@.map_values(|m: &NoteMeta| *m);
            assert(mv.subrange(0, k + 1).drop_last() =~= mv.subrange(0, k as int));
            assert(mv.subrange(0, k + 1).last() == *metas@[k as int]);
            let m = metas[k];
            let inside = in_folder_exec(m.path.as_str(), &prefix);
            assert(inside == in_folder(*m, fv));
            if inside && out.len() < limit {
                out.push(m);
                assert(out@.map_values(|m: &NoteMeta| *m) =~= before.push(*m));
                assert(before.push(*m) =~= kept.push(*m).subrange(0, out@.len() as int));
            } else if inside {
                assert(kept.push(*m).subrange(0, out@.len() as int) =~= kept.subrange(0, out@.len() as int));
            }
            k += 1;
        }
        assert(mv.subrange(0, k as int) =~= mv);
        (out, metas.len())
    }
}

// ---------------------------------------------------------------------------
// moving a folder
// ---------------------------------------------------------------------------

/// `j` is where the first `n` bytes of `s`'s UTF-8 encoding end.
pub open spec fn is_cut(s: Seq<char>, n: nat, j: int) -> bool {
    0 <= j <= s.len() && byte_len(s.subrange(0, j)) == n
}

/// Byte offset `n` of `s`'s UTF-8 encoding falls between characters.
pub open spec fn has_cut(s: Seq<char>, n: nat) -> bool {
    exists|j: int| is_cut(s, n, j)
}

/// The character position at byte offset `n` of `s`, when that offset falls
/// between characters (`str` slicing at a byte offset).
pub open spec fn cut(s: Seq<char>, n: nat) -> int {
    choose|j: int| is_cut(s, n, j)
}

proof fn lemma_byte_len_step(s: Seq<char>, k: int)
    requires
        0 <= k < s.len(),
    ensures
        byte_len(s.subrange(0, k + 1)) == byte_len(s.subrange(0, k)) + char_width(s[k]),
        char_width(s[k]) >= 1,
{
    assert(s.subrange(0, k + 1).drop_last() =~= s.subrange(0, k));
    assert(s.subrange(0, k + 1).last() == s[k]);
}

/// A byte offset falls between characters at most once.
pub proof fn lemma_cut_unique(s: Seq<char>, n: nat, a: int, b: int)
    requires
        is_cut(s, n, a),
        is_cut(s, n, b),
    ensures
        a == b,
{
    if a < b {
        lemma_byte_len_step(s, a);
        lemma_byte_len_mono(s, a + 1, b);
    } else if b < a {
        lemma_byte_len_step(s, b);
        lemma_byte_len_mono(s, b + 1, a);
    }
}

fn char_width_exec(c: char) -> (w: u128)
    ensures
        w == char_width(c),
{
    let u = c as u32;
    if u < 0x80 {
        1
    } else if u < 0x800 {
        2
    } else if u < 0x10000 {
        3
    } else {
        4
    }
}

fn cut_index(s: &[char], n: u128) -> (j: usize)
    requires
        has_cut(s@, n as nat),
    ensures
        j == cut(s@, n as nat),
{
    let ghost target = choose|j: int| is_cut(s@, n as nat, j);
    let mut w: u128 = 0;
    let mut k: usize = 0;
    assert(s@.subrange(0, 0) =~= Seq::<char>::empty());
    while w < n
        invariant
            k <= s@.len(),
            w == byte_len(s@.subrange(0, k as int)),
            w <= n,
            is_cut(s@, n as nat, target),
            k <= target,
        decreases s@.len() - k,
    {
        proof {
            assert(k < target) by {
                if k as int == target {
                    assert(w == n);
                }
            }
            lemma_byte_len_step(s@, k as int);
            lemma_byte_len_mono(s@, k + 1, target);
        }
        w = w + char_width_exec(s[k]);
        k += 1;
    }
    proof {
        lemma_cut_unique(s@, n as nat, k as int, target);
    }
    k
}

/// Where each note of a moved folder lands: `to` followed by what comes
/// after the first `from`-many bytes of its path. That byte offset must fall
/// between characters of every note path (as it does when the path starts
/// with `from`).
pub fn folder_moves(notes: &Vec<String>, from: &str, to: &str) -> (r: Vec<(String, String)>)
    requires
        forall|i: int| 0 <= i < notes@.len() ==> has_cut((#[trigger] notes@[i])@, byte_len(from@)),
    ensures
        r@.len() == notes@.len(),
        forall|i: int|
            0 <= i < notes@.len() ==> (#[trigger] r@[i]).0@ == notes@[i]@ && r@[i].1@ == to@
                + notes@[i]@.subrange(cut(notes@[i]@, byte_len(from@)), notes@[i]@.len() as int),
{
    let n = crate::paths::utf8_len(chars_of(from).as_slice());
    let tc = chars_of(to);
    let mut out: Vec<(String, String)> = Vec::new();
    let mut k: usize = 0;
    while k < notes.len()
        invariant
            k <= notes@.len(),
            n == byte_len(from@),
            tc@ == to@,
            out@.len() == k,
            forall|i: int| 0 <= i < notes@.len() ==> has_cut((#[trigger] notes@[i])@, byte_len(from@)),
            forall|i: int|
                0 <= i < k ==> (#[trigger] out@[i]).0@ == notes@[i]@ && out@[i].1@ == to@
                    + notes@[i]@.subrange(cut(notes@[i]@, byte_len(from@)), notes@[i]@.len() as int),
        decreases notes@.len() - k,
    {
        let nc = chars_of(notes[k].as_str());
        assert(has_cut(notes@[k as int]@, byte_len(from@)));
        let j = cut_index(nc.as_slice(), n);
        let mut moved = slice_of(tc.as_slice(), 0, tc.len());
        let mut rest = slice_of(nc.as_slice(), j, nc.len());
        moved.append(&mut rest);
        out.push((string_of(nc.as_slice()), string_of(moved.as_slice())));
        k += 1;
    }
    out
}

// ---------------------------------------------------------------------------
// frontmatter
// ---------------------------------------------------------------------------

pub open spec fn key_title() -> Seq<char> {
    seq!['t', 'i', 't', 'l', 'e']
}

pub open spec fn key_tags() -> Seq<char> {
    seq!['t', 'a', 'g', 's']
}

pub open spec fn key_aliases() -> Seq<char> {
    seq!['a', 'l', 'i', 'a', 's', 'e', 's']
}

pub open spec fn key_created() -> Seq<char> {
    seq!['c', 'r', 'e', 'a', 't', 'e', 'd']
}

pub open spec fn str_list(items: Seq<Seq<char>>) -> Yaml {
    Yaml::Array(items.map_values(|s: Seq<char>| Yaml::Str(s)))
}

/// The frontmatter a new note starts with: the title if given, the tags and
/// aliases if any, and when it was created.
pub open spec fn new_note_frontmatter(
    title: Option<Seq<char>>,
    tags: Seq<Seq<char>>,
    aliases: Seq<Seq<char>>,
    created: int,
) -> Seq<(Seq<char>, Yaml)> {
    let m1 = match title {
        Some(t) => map_insert(seq![], key_title(), Yaml::Str(t)),
        None => seq![],
    };
    let m2 = if tags.len() > 0 {
        map_insert(m1, key_tags(), str_list(tags))
    } else {
        m1
    };
    let m3 = if aliases.len() > 0 {
        map_insert(m2, key_aliases(), str_list(aliases))
    } else {
        m2
    };
    map_insert(m3, key_created(), Yaml::Int(created))
}

fn string_values(items: &Vec<String>) -> (r: Value)
    ensures
        r@ == str_list(strings_view(items@)),
{
    let mut out: Vec<Value> = Vec::new();
    let mut k: usize = 0;
    while k < items.len()
        invariant
            k <= items@.len(),
            crate::yaml::views_of(out@, 0) == strings_view(items@).subrange(0, k as int).map_values(
                |s: Seq<char>| Yaml::Str(s),
            ),
        decreases items@.len() - k,
    {
        let v = Value::String(string_of(chars_of(items[k].as_str()).as_slice()));
        proof {
            crate::yaml::lemma_views_push(out@, v);
        }
        out.push(v);
        assert(strings_view(items@).subrange(0, k + 1).map_values(|s: Seq<char>| Yaml::Str(s)) =~= strings_view(
            items@,
        ).subrange(0, k as int).map_values(|s: Seq<char>| Yaml::Str(s)).push(Yaml::Str(items@[k as int]@)));
        k += 1;
    }
    assert(strings_view(items@).subrange(0, k as int) =~= strings_view(items@));
    Value::Array(out)
}

/// The full text of a new note: its starting frontmatter, then the body.
pub fn new_note_content(
    title: Option<&str>,
    tags: &Vec<String>,
    aliases: &Vec<String>,
    created: i64,
    body: &str,
) -> (r: String)
    ensures
        r@ == compose_spec(
            new_note_frontmatter(
                str_opt(title),
                strings_view(tags@),
                strings_view(aliases@),
                created as int,
            ),
            body@,
        ),
        crate::yaml::keys_sorted(
            new_note_frontmatter(str_opt(title), strings_view(tags@), strings_view(aliases@), created as int),
        ),
{
    proof {
        lemma_new_note_sorted(str_opt(title), strings_view(tags@), strings_view(aliases@), created as int);
    }
    let mut fm: Entries = Vec::new();
    proof {
        crate::yaml::lemma_entries_view(fm@, 0);
        assert(map_view(fm@) =~= Seq::<(Seq<char>, Yaml)>::empty());
    }
    assert(['t', 'i', 't', 'l', 'e']@ =~= key_title());
    assert(['t', 'a', 'g', 's']@ =~= key_tags());
    assert(['a', 'l', 'i', 'a', 's', 'e', 's']@ =~= key_aliases());
    assert(['c', 'r', 'e', 'a', 't', 'e', 'd']@ =~= key_created());
    match title {
        Some(t) => {
            let v = Value::String(string_of(chars_of(t).as_slice()));
            map_put(&mut fm, string_of(&['t', 'i', 't', 'l', 'e']), v);
        },
        None => {},
    }
    if tags.len() > 0 {
        map_put(&mut fm, string_of(&['t', 'a', 'g', 's']), string_values(tags));
    }
    if aliases.len() > 0 {
        map_put(&mut fm, string_of(&['a', 'l', 'i', 'a', 's', 'e', 's']), string_values(aliases));
    }
    map_put(&mut fm, string_of(&['c', 'r', 'e', 'a', 't', 'e', 'd']), Value::Int(created));
    compose(&fm, body)
}

/// Every `(key, value)` of `set` bound in turn.
pub open spec fn put_all(m: Seq<(Seq<char>, Yaml)>, set: Seq<(Seq<char>, Yaml)>) -> Seq<(Seq<char>, Yaml)>
    decreases set.len(),
{
    if set.len() == 0 {
        m
    } else {
        put_all(map_insert(m, set[0].0, set[0].1), set.drop_first())
    }
}

/// Every key of `keys` removed in turn.
pub open spec fn remove_all(m: Seq<(Seq<char>, Yaml)>, keys: Seq<Seq<char>>) -> Seq<(Seq<char>, Yaml)>
    decreases keys.len(),
{
    if keys.len() == 0 {
        m
    } else {
        remove_all(map_remove(m, keys[0]), keys.drop_first())
    }
}

/// Setting and removing keys keeps a map's keys strictly increasing.
pub proof fn lemma_update_sorted(m: Seq<(Seq<char>, Yaml)>, set: Seq<(Seq<char>, Yaml)>, keys: Seq<Seq<char>>)
    requires
        crate::yaml::keys_sorted(m),
    ensures
        crate::yaml::keys_sorted(put_all(m, set)),
        crate::yaml::keys_sorted(remove_all(m, keys)),
    decreases set.len() + keys.len(),
{
    if set.len() > 0 {
        crate::yaml::lemma_map_insert_sorted(m, set[0].0, set[0].1);
        lemma_update_sorted(map_insert(m, set[0].0, set[0].1), set.drop_first(), seq![]);
    }
    if keys.len() > 0 {
        crate::yaml::lemma_map_remove_sorted(m, keys[0]);
        lemma_update_sorted(map_remove(m, keys[0]), seq![], keys.drop_first());
    }
}

/// A new note's frontmatter holds each key once, in increasing order.
pub proof fn lemma_new_note_sorted(title: Option<Seq<char>>, tags: Seq<Seq<char>>, aliases: Seq<Seq<char>>, created: int)
    ensures
        crate::yaml::keys_sorted(new_note_frontmatter(title, tags, aliases, created)),
{
    let e: Seq<(Seq<char>, Yaml)> = seq![];
    let m1 = match title {
        Some(t) => map_insert(e, key_title(), Yaml::Str(t)),
        None => e,
    };
    if let Some(t) = title {
        crate::yaml::lemma_map_insert_sorted(e, key_title(), Yaml::Str(t));
    }
    let m2 = if tags.len() > 0 {
        map_insert(m1, key_tags(), str_list(tags))
    } else {
        m1
    };
    crate::yaml::lemma_map_insert_sorted(m1, key_tags(), str_list(tags));
    let m3 = if aliases.len() > 0 {
        map_insert(m2, key_aliases(), str_list(aliases))
    } else {
        m2
    };
    crate::yaml::lemma_map_insert_sorted(m2, key_aliases(), str_list(aliases));
    crate::yaml::lemma_map_insert_sorted(m3, key_created(), Yaml::Int(created));
}

/// Set fields of a frontmatter map, then remove others.
pub fn update_frontmatter(fm: &mut Entries, set: Vec<(String, Value)>, remove: &Vec<String>)
    ensures
        map_view(final(fm)@) == remove_all(
            put_all(map_view(old(fm)@), map_view(set@)),
            strings_view(remove@),
        ),
        crate::yaml::keys_sorted(map_view(old(fm)@)) ==> crate::yaml::keys_sorted(map_view(final(fm)@)),
{
    proof {
        if crate::yaml::keys_sorted(map_view(fm@)) {
            lemma_update_sorted(map_view(fm@), map_view(set@), seq![]);
            lemma_update_sorted(put_all(map_view(fm@), map_view(set@)), seq![], strings_view(remove@));
        }
    }
    let mut pending = set;
    let ghost goal = put_all(map_view(fm@), map_view(pending@));
    while pending.len() > 0
        invariant
            goal == put_all(map_view(fm@), map_view(pending@)),
        decreases pending@.len(),
    {
        proof {
            crate::yaml::lemma_entries_view(pending@, 0);
        }
        let ghost pv = map_view(pending@);
        let (key, value) = pending.remove(0);
        proof {
            crate::yaml::lemma_entries_view(pending@, 0);
            assert(map_view(pending@) =~= pv.drop_first());
            assert(pv[0] == (key@, value@));
        }
        map_put(fm, key, value);
    }
    proof {
        crate::yaml::lemma_entries_view(pending@, 0);
        assert(map_view(pending@) =~= Seq::<(Seq<char>, Yaml)>::empty());
    }
    let ghost target = remove_all(map_view(fm@), strings_view(remove@));
    assert(strings_view(remove@).subrange(0, remove@.len() as int) =~= strings_view(remove@));
    let mut k: usize = 0;
    while k < remove.len()
        invariant
            k <= remove@.len(),
            target == remove_all(map_view(fm@), strings_view(remove@).subrange(k as int, remove@.len() as int)),
        decreases remove@.len() - k,
    {
        let ghost rest = strings_view(remove@).subrange(k as int, remove@.len() as int);
        assert(rest[0] == remove@[k as int]@);
        assert(rest.drop_first() =~= strings_view(remove@).subrange(k + 1, remove@.len() as int));
        map_drop(fm, remove[k].as_str());
        k += 1;
    }
    assert(strings_view(remove@).subrange(k as int, remove@.len() as int) =~= Seq::<Seq<char>>::empty());
}

/// The value `set` binds `key` to last, if it binds it at all.
pub open spec fn last_binding(set: Seq<(Seq<char>, Yaml)>, key: Seq<char>) -> Option<Yaml>
    decreases set.len(),
{
    if set.len() == 0 {
        None
    } else {
        match last_binding(set.drop_first(), key) {
            Some(v) => Some(v),
            None => if set[0].0 == key {
                Some(set[0].1)
            } else {
                None
            },
        }
    }
}

/// Setting fields: each key reads as the value last set for it, and a key
/// not set reads as before.
pub proof fn lemma_put_all_get(m: Seq<(Seq<char>, Yaml)>, set: Seq<(Seq<char>, Yaml)>, key: Seq<char>)
    ensures
        map_get(put_all(m, set), key) == match last_binding(set, key) {
            Some(v) => Some(v),
            None => map_get(m, key),
        },
    decreases set.len(),
{
    if set.len() > 0 {
        let m1 = map_insert(m, set[0].0, set[0].1);
        lemma_put_all_get(m1, set.drop_first(), key);
        if set[0].0 == key {
            crate::yaml::lemma_map_insert_get(m, key, set[0].1);
        } else {
            crate::yaml::lemma_map_insert_other(m, set[0].0, set[0].1, key);
        }
    }
}

/// Removing fields: a removed key reads as absent, any other as before.
pub proof fn lemma_remove_all_get(m: Seq<(Seq<char>, Yaml)>, keys: Seq<Seq<char>>, key: Seq<char>)
    ensures
        keys.contains(key) ==> map_get(remove_all(m, keys), key) is None,
        !keys.contains(key) ==> map_get(remove_all(m, keys), key) == map_get(m, key),
    decreases keys.len(),
{
    if keys.len() > 0 {
        let m1 = map_remove(m, keys[0]);
        lemma_remove_all_get(m1, keys.drop_first(), key);
        crate::yaml::lemma_map_remove_get(m, keys[0], key);
        if keys.contains(key) && keys[0] != key {
            let i = choose|i: int| 0 <= i < keys.len() && keys[i] == key;
            assert(keys.drop_first()[i - 1] == key);
        }
        if !keys.contains(key) {
            assert forall|i: int| 0 <= i < keys.drop_first().len() implies keys.drop_first()[i] != key by {
                assert(keys.drop_first()[i] == keys[i + 1]);
            }
        }
    }
}

/// A frontmatter update in full: a removed field is gone, a field set (and
/// not removed) reads as the value last set, and every other field is as it
/// was.
pub proof fn lemma_update_frontmatter(
    m: Seq<(Seq<char>, Yaml)>,
    set: Seq<(Seq<char>, Yaml)>,
    remove: Seq<Seq<char>>,
    key: Seq<char>,
)
    ensures
        map_get(remove_all(put_all(m, set), remove), key) == if remove.contains(key) {
            None
        } else {
            match last_binding(set, key) {
                Some(v) => Some(v),
                None => map_get(m, key),
            }
        },
{
    lemma_remove_all_get(put_all(m, set), remove, key);
    lemma_put_all_get(m, set, key);
}

// ---------------------------------------------------------------------------
// appending
// ---------------------------------------------------------------------------

/// Text to append as a block of its own: the text, with a line break added
/// when it does not already end in one (even when it is empty).
pub fn line_block(text: &str) -> (r: String)
    ensures
        r@ == if text@.len() > 0 && text@.last() == '\n' {
            text@
        } else {
            text@.push('\n')
        },
{
    let mut t = chars_of(text);
    if !(t.len() > 0 && t[t.len() - 1] == '\n') {
        t.push('\n');
    }
    string_of(t.as_slice())
}


// ---------------------------------------------------------------------------
// tool schemas
// ---------------------------------------------------------------------------

pub open spec fn vault_key() -> Seq<char> {
    seq!['v', 'a', 'u', 'l', 't']
}

/// The arguments a tool requires: its own, plus `vault` when several vaults
/// are open and a call must say which.
pub fn required_fields(required: &Vec<String>, single: bool) -> (r: Vec<String>)
    ensures
        strings_view(r@) == if single {
            strings_view(required@)
        } else {
            strings_view(required@).push(vault_key())
        },
{
    let mut out: Vec<String> = Vec::new();
    let mut k: usize = 0;
    while k < required.len()
        invariant
            k <= required@.len(),
            strings_view(out@) == strings_view(required@).subrange(0, k as int),
        decreases required@.len() - k,
    {
        let ghost before = strings_view(out@);
        let c = string_of(chars_of(required[k].as_str()).as_slice());
        out.push(c);
        assert(strings_view(out@) =~= before.push(c@));
        assert(strings_view(out@) =~= strings_view(required@).subrange(0, k + 1));
        k += 1;
    }
    assert(strings_view(required@).subrange(0, k as int) =~= strings_view(required@));
    if !single {
        let ghost before = strings_view(out@);
        let v = string_of(&['v', 'a', 'u', 'l', 't']);
        assert(['v', 'a', 'u', 'l', 't']@ =~= vault_key());
        out.push(v);
        assert(strings_view(out@) =~= before.push(vault_key()));
    }
    out
}

/// Names joined with `", "`.
pub open spec fn comma_joined(names: Seq<Seq<char>>) -> Seq<char>
    decreases names.len(),
{
    if names.len() == 0 {
        seq![]
    } else if names.len() == 1 {
        names[0]
    } else {
        comma_joined(names.drop_last()) + seq![',', ' '] + names.last()
    }
}

fn comma_joined_exec(names: &Vec<String>) -> (r: Vec<char>)
    ensures
        r@ == comma_joined(strings_view(names@)),
{
    let ghost nv = strings_view(names@);
    let mut out: Vec<char> = Vec::new();
    let mut k: usize = 0;
    while k < names.len()
        invariant
            k <= names@.len(),
            nv == strings_view(names@),
            out@ == comma_joined(nv.subrange(0, k as int)),
        decreases names@.len() - k,
    {
        let ghost before = out@;
        assert(nv.subrange(0, k + 1).drop_last() =~= nv.subrange(0, k as int));
        assert(nv.subrange(0, k + 1).last() == names@[k as int]@);
        if k > 0 {
            out.push(',');
            out.push(' ');
        }
        let mut c = chars_of(names[k].as_str());
        out.append(&mut c);
        proof {
            if k == 0 {
                assert(out@ =~= nv.subrange(0, 1)[0]);
            } else {
                assert(out@ =~= before + seq![',', ' '] + names@[k as int]@);
            }
        }
        k += 1;
    }
    assert(nv.subrange(0, k as int) =~= nv);
    out
}

/// How the shared `vault` argument is described to an agent: not needed
/// when following the app; otherwise which vaults are open, and whether
/// naming one is optional (exactly one is open) or required.
pub fn vault_description(follows_app: bool, names: &Vec<String>) -> (r: String)
    ensures
        r@ == if follows_app {
            "Not needed: this server always acts on whichever vault Intentio Knowledge currently has open."@
        } else {
            "Which vault to act on. Open vaults: "@ + comma_joined(strings_view(names@)) + "."@ + if names@.len()
                == 1 {
                " Optional \u{2014} only one vault is open."@
            } else {
                " Required."@
            }
        },
{
    if follows_app {
        let s = chars_of(
            "Not needed: this server always acts on whichever vault Intentio Knowledge currently has open.",
        );
        return string_of(s.as_slice());
    }
    let mut out = chars_of("Which vault to act on. Open vaults: ");
    let mut joined = comma_joined_exec(names);
    out.append(&mut joined);
    let mut dot = chars_of(".");
    out.append(&mut dot);
    let mut tail = if names.len() == 1 {
        chars_of(" Optional \u{2014} only one vault is open.")
    } else {
        chars_of(" Required.")
    };
    out.append(&mut tail);
    string_of(out.as_slice())
}

} // verus!
