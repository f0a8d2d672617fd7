//! A single markdown note: its frontmatter, body, and the structure inside it.

use vstd::prelude::*;

use crate::frontmatter::{compose, compose_spec, int_chars, int_text, parse, parse_spec, split, split_spec};
use crate::links::{Scan, SpecHeading, SpecScan, scan, spec_scan, strings_view};
use crate::sorting::{sorted_unique, strictly_sorted};
use crate::text::{
    chars_of, find_char, find_from, lemma_find_from, slice_of, string_of, trim, trim_start_char,
    trim_start_char_vec, trim_vec,
};
use crate::yaml::{Entries, Value, Yaml, map_get, map_view, view_of};

verus! {

/// Lightweight description of a note, safe to list in bulk.
#[derive(Debug, Clone, PartialEq)]
pub struct NoteMeta {
    /// Vault-relative path with forward slashes, e.g. `Projects/Alpha.md`.
    pub path: String,
    /// Frontmatter `title`, else the first H1, else the file stem.
    pub title: String,
    /// Alternate names this note answers to, from frontmatter `aliases`.
    pub aliases: Vec<String>,
    /// Tags from frontmatter and body, deduplicated.
    pub tags: Vec<String>,
    /// File size in bytes.
    pub size: u64,
    /// Last modification time, milliseconds since the Unix epoch.
    pub modified: Option<u64>,
}

/// A note with its contents loaded.
#[derive(Debug, PartialEq)]
pub struct Note {
    pub meta: NoteMeta,
    /// Parsed frontmatter, empty when the note has none.
    pub frontmatter: Entries,
    /// Note text with the frontmatter block removed.
    pub body: String,
    /// Links, tags, headings and block ids found in the body.
    pub scan: Scan,
}

// ---------------------------------------------------------------------------
// the model
// ---------------------------------------------------------------------------

pub open spec fn word_title() -> Seq<char> {
    seq!['t', 'i', 't', 'l', 'e']
}

pub open spec fn word_aliases() -> Seq<char> {
    seq!['a', 'l', 'i', 'a', 's', 'e', 's']
}

pub open spec fn word_alias() -> Seq<char> {
    seq!['a', 'l', 'i', 'a', 's']
}

pub open spec fn word_tags() -> Seq<char> {
    seq!['t', 'a', 'g', 's']
}

pub open spec fn word_tag() -> Seq<char> {
    seq!['t', 'a', 'g']
}

/// Position just after the last `c` before `j`, or 0 when there is none.
pub open spec fn after_last(s: Seq<char>, c: char, j: int) -> int
    decreases j,
{
    if j <= 0 {
        0
    } else if s[j - 1] == c {
        j
    } else {
        after_last(s, c, j - 1)
    }
}

/// The last `/`-separated component of a path.
pub open spec fn file_name(p: Seq<char>) -> Seq<char> {
    p.subrange(after_last(p, '/', p.len() as int), p.len() as int)
}

pub open spec fn md_ext() -> Seq<char> {
    seq!['.', 'm', 'd']
}

/// `s` without a trailing `.md`.
pub open spec fn strip_md(s: Seq<char>) -> Seq<char> {
    if s.len() >= 3 && s.subrange(s.len() - 3, s.len() as int) == md_ext() {
        s.subrange(0, s.len() - 3)
    } else {
        s
    }
}

/// Filename stem of a note path.
pub open spec fn stem_of(p: Seq<char>) -> Seq<char> {
    strip_md(file_name(p))
}

/// The trimmed comma-separated parts of `s` from `i` on, empty parts
/// dropped.
pub open spec fn comma_parts(s: Seq<char>, i: int) -> Seq<Seq<char>>
    decreases s.len() - i,
{
    if i < 0 || i > s.len() {
        seq![]
    } else {
        let e = find_from(s, ',', i);
        let piece = trim(s.subrange(i, e));
        let here = if piece.len() > 0 {
            seq![piece]
        } else {
            seq![]
        };
        if e >= s.len() {
            here
        } else {
            proof {
                lemma_find_from(s, ',', i);
            }
            here + comma_parts(s, e + 1)
        }
    }
}

/// The text a list item contributes: strings trimmed, numbers written out,
/// anything else nothing.
pub open spec fn item_string(v: Yaml) -> Option<Seq<char>> {
    match v {
        Yaml::Str(s) => Some(trim(s)),
        Yaml::Int(i) => Some(int_text(i)),
        Yaml::Float(t) => Some(t),
        _ => None,
    }
}

/// Non-empty item strings of `items`, from `k` on.
pub open spec fn item_strings(items: Seq<Yaml>, k: int) -> Seq<Seq<char>>
    decreases items.len() - k,
{
    if k < 0 || k >= items.len() {
        seq![]
    } else {
        let here = match item_string(items[k]) {
            Some(s) => if s.len() > 0 {
                seq![s]
            } else {
                seq![]
            },
            None => seq![],
        };
        here + item_strings(items, k + 1)
    }
}

/// A frontmatter field read as a list of strings: a single string split at
/// commas, or the string and number items of a list.
pub open spec fn string_list_spec(v: Option<Yaml>) -> Seq<Seq<char>> {
    match v {
        Some(Yaml::Str(s)) => comma_parts(s, 0),
        Some(Yaml::Array(items)) => item_strings(items, 0),
        _ => seq![],
    }
}

/// Index of the first level-1 heading from `k` on, if any.
pub open spec fn first_h1(hs: Seq<SpecHeading>, k: int) -> Option<int>
    decreases hs.len() - k,
{
    if k < 0 || k >= hs.len() {
        None
    } else if hs[k].level == 1 {
        Some(k)
    } else {
        first_h1(hs, k + 1)
    }
}

/// Frontmatter `title`, trimmed, when it is a non-empty string.
pub open spec fn fm_title(fm: Seq<(Seq<char>, Yaml)>) -> Option<Seq<char>> {
    match map_get(fm, word_title()) {
        Some(Yaml::Str(t)) => if trim(t).len() > 0 {
            Some(trim(t))
        } else {
            None
        },
        _ => None,
    }
}

/// Frontmatter `title` (trimmed, when a non-empty string), else the first H1,
/// else the file stem.
pub open spec fn title_spec(path: Seq<char>, fm: Seq<(Seq<char>, Yaml)>, sc: SpecScan) -> Seq<char> {
    match fm_title(fm) {
        Some(t) => t,
        None => match first_h1(sc.headings, 0) {
            Some(k) => sc.headings[k].text,
            None => stem_of(path),
        },
    }
}

/// The strings of `s` without leading `#`s, empty ones dropped.
pub open spec fn hash_stripped(s: Seq<Seq<char>>) -> Seq<Seq<char>>
    decreases s.len(),
{
    if s.len() == 0 {
        seq![]
    } else {
        let rest = hash_stripped(s.drop_last());
        let t = trim_start_char(s.last(), '#');
        if t.len() > 0 {
            rest.push(t)
        } else {
            rest
        }
    }
}

/// Tags named in frontmatter `tags` and `tag`, without leading `#`s, empty
/// ones dropped.
pub open spec fn frontmatter_tags(fm: Seq<(Seq<char>, Yaml)>) -> Seq<Seq<char>> {
    hash_stripped(
        string_list_spec(map_get(fm, word_tags())) + string_list_spec(map_get(fm, word_tag())),
    )
}

/// The tags of a note: those of its frontmatter and those in its body.
pub open spec fn is_note_tag(fm: Seq<(Seq<char>, Yaml)>, sc: SpecScan, t: Seq<char>) -> bool {
    frontmatter_tags(fm).contains(t) || exists|k: int|
        0 <= k < sc.tags.len() && #[trigger] sc.tags[k].name == t
}

/// The frontmatter map of a note's text.
pub open spec fn note_frontmatter(content: Seq<char>) -> Seq<(Seq<char>, Yaml)> {
    match split_spec(content).0 {
        Some(raw) => parse_spec(raw),
        None => seq![],
    }
}

// ---------------------------------------------------------------------------
// executable parts
// ---------------------------------------------------------------------------

/// The value bound to `key` in a frontmatter map.
pub fn lookup<'a>(m: &'a Entries, key: &[char]) -> (r: Option<&'a Value>)
    ensures
        match r {
            Some(v) => map_get(map_view(m@), key@) == Some(v@),
            None => map_get(map_view(m@), key@) is None,
        },
{
    proof {
        crate::yaml::lemma_entries_view(m@, 0);
    }
    let ghost mv = map_view(m@);
    assert(mv.subrange(0, mv.len() as int) =~= mv);
    let mut k: usize = 0;
    while k < m.len()
        invariant
            k <= m@.len(),
            mv == map_view(m@),
            mv.len() == m@.len(),
            forall|i: int| 0 <= i < mv.len() ==> #[trigger] mv[i] == (m@[i].0@, view_of(m@[i].1)),
            map_get(mv, key@) == map_get(mv.subrange(k as int, mv.len() as int), key@),
        decreases m@.len() - k,
    {
        let kc = chars_of(m[k].0.as_str());
        let ghost rest = mv.subrange(k as int, mv.len() as int);
        assert(rest[0] == mv[k as int]);
        assert(rest.drop_first() =~= mv.subrange(k + 1, mv.len() as int));
        if crate::text::vec_eq(kc.as_slice(), key) {
            return Some(&m[k].1);
        }
        k += 1;
    }
    None
}

fn comma_list(s: &[char]) -> (r: Vec<String>)
    ensures
        strings_view(r@) == comma_parts(s@, 0),
{
    let mut out: Vec<String> = Vec::new();
    let mut i: usize = 0;
    loop
        invariant
            i <= s@.len(),
            strings_view(out@) + comma_parts(s@, i as int) == comma_parts(s@, 0),
        decreases s@.len() - i,
    {
        let e = find_char(s, ',', i);
        let piece = trim_vec(slice_of(s, i, e).as_slice());
        let ghost before = strings_view(out@);
        if piece.len() > 0 {
            out.push(string_of(piece.as_slice()));
            assert(strings_view(out@) =~= before.push(piece@));
        }
        if e >= s.len() {
            assert(strings_view(out@) =~= before + comma_parts(s@, i as int));
            return out;
        }
        proof {
            assert(comma_parts(s@, i as int) == (if piece@.len() > 0 {
                seq![piece@]
            } else {
                seq![]
            }) + comma_parts(s@, e + 1));
            assert(strings_view(out@) + comma_parts(s@, e + 1) =~= before + comma_parts(
                s@,
                i as int,
            ));
        }
        i = e + 1;
    }
}

/// Read a frontmatter field that may be a single string or a list of them.
pub fn string_list(value: Option<&Value>) -> (r: Vec<String>)
    ensures
        strings_view(r@) == string_list_spec(
            match value {
                Some(v) => Some(v@),
                None => None,
            },
        ),
{
    match value {
        Some(Value::String(single)) => {
            let c = chars_of(single.as_str());
            comma_list(c.as_slice())
        },
        Some(Value::Array(items)) => {
            let ghost iv = crate::yaml::views_of(items@, 0);
            proof {
                crate::yaml::lemma_views_of(items@, 0);
            }
            let mut out: Vec<String> = Vec::new();
            let mut k: usize = 0;
            while k < items.len()
                invariant
                    k <= items@.len(),
                    iv == crate::yaml::views_of(items@, 0),
                    iv.len() == items@.len(),
                    forall|i: int| 0 <= i < iv.len() ==> #[trigger] iv[i] == view_of(items@[i]),
                    strings_view(out@) + item_strings(iv, k as int) == item_strings(iv, 0),
                decreases items@.len() - k,
            {
                let ghost before = strings_view(out@);
                assert(iv[k as int] == view_of(items@[k as int]));
                let piece: Option<Vec<char>> = match &items[k] {
                    Value::String(s) => Some(trim_vec(chars_of(s.as_str()).as_slice())),
                    Value::Int(i) => Some(int_chars(*i)),
                    Value::Float(t) => Some(chars_of(t.as_str())),
                    _ => None,
                };
                match piece {
                    Some(p) => {
                        if p.len() > 0 {
                            out.push(string_of(p.as_slice()));
                            assert(strings_view(out@) =~= before.push(p@));
                        }
                    },
                    None => {},
                }
                assert(strings_view(out@) + item_strings(iv, k + 1) =~= before + item_strings(
                    iv,
                    k as int,
                ));
                k += 1;
            }
            assert(strings_view(out@) + item_strings(iv, k as int) =~= strings_view(out@));
            out
        },
        _ => Vec::new(),
    }
}

fn stem_chars(p: &[char]) -> (r: Vec<char>)
    ensures
        r@ == stem_of(p@),
{
    let mut j = p.len();
    while j > 0 && p[j - 1] != '/'
        invariant
            j <= p@.len(),
            after_last(p@, '/', j as int) == after_last(p@, '/', p@.len() as int),
        decreases j,
    {
        j -= 1;
    }
    let name = slice_of(p, j, p.len());
    let n = name.len();
    if n >= 3 && name[n - 3] == '.' && name[n - 2] == 'm' && name[n - 1] == 'd' {
        assert(name@.subrange(n - 3, n as int) =~= md_ext());
        slice_of(name.as_slice(), 0, n - 3)
    } else {
        assert(n >= 3 ==> name@.subrange(n - 3, n as int) != md_ext()) by {
            if n >= 3 {
                assert(name@.subrange(n - 3, n as int)[0] == name@[n - 3]);
                assert(name@.subrange(n - 3, n as int)[1] == name@[n - 2]);
                assert(name@.subrange(n - 3, n as int)[2] == name@[n - 1]);
            }
        }
        name
    }
}

fn fm_title_exec(fm: &Entries) -> (r: Option<Vec<char>>)
    ensures
        match r {
            Some(t) => fm_title(map_view(fm@)) == Some(t@),
            None => fm_title(map_view(fm@)) is None,
        },
{
    let title_key = ['t', 'i', 't', 'l', 'e'];
    assert(title_key@ =~= word_title());
    match lookup(fm, &title_key) {
        Some(Value::String(t)) => {
            let tt = trim_vec(chars_of(t.as_str()).as_slice());
            if tt.len() > 0 {
                Some(tt)
            } else {
                None
            }
        },
        _ => None,
    }
}

fn title_of(path: &[char], fm: &Entries, sc: &Scan) -> (r: Vec<char>)
    ensures
        r@ == title_spec(path@, map_view(fm@), sc@),
{
    match fm_title_exec(fm) {
        Some(t) => {
            return t;
        },
        None => {},
    }
    let ghost hs = sc@.headings;
    let mut k: usize = 0;
    while k < sc.headings.len()
        invariant
            k <= sc.headings@.len(),
            hs == sc@.headings,
            hs.len() == sc.headings@.len(),
            forall|i: int| 0 <= i < hs.len() ==> #[trigger] hs[i] == sc.headings@[i]@,
            first_h1(hs, k as int) == first_h1(hs, 0),
            fm_title(map_view(fm@)) is None,
        decreases sc.headings@.len() - k,
    {
        assert(hs[k as int] == sc.headings@[k as int]@);
        if sc.headings[k].level == 1 {
            return chars_of(sc.headings[k].text.as_str());
        }
        k += 1;
    }
    stem_chars(path)
}

fn note_tags(fm: &Entries, sc: &Scan) -> (r: Vec<String>)
    ensures
        strictly_sorted(strings_view(r@)),
        forall|t: Seq<char>| strings_view(r@).contains(t) <==> is_note_tag(map_view(fm@), sc@, t),
{
    let tags_key = ['t', 'a', 'g', 's'];
    let tag_key = ['t', 'a', 'g'];
    assert(tags_key@ =~= word_tags());
    assert(tag_key@ =~= word_tag());
    let mut named = string_list(lookup(fm, &tags_key));
    let mut more = string_list(lookup(fm, &tag_key));
    let ghost all = strings_view(named@) + strings_view(more@);
    named.append(&mut more);
    assert(strings_view(named@) =~= all);
    let mut cands: Vec<String> = Vec::new();
    let mut k: usize = 0;
    while k < named.len()
        invariant
            k <= named@.len(),
            strings_view(named@) == all,
            strings_view(cands@) == hash_stripped(all.subrange(0, k as int)),
        decreases named@.len() - k,
    {
        let t = trim_start_char_vec(chars_of(named[k].as_str()).as_slice(), '#');
        let ghost before = strings_view(cands@);
        proof {
            assert(all[k as int] == named@[k as int]@);
            assert(all.subrange(0, k + 1).drop_last() =~= all.subrange(0, k as int));
            assert(all.subrange(0, k + 1).last() == all[k as int]);
        }
        if t.len() > 0 {
            cands.push(string_of(t.as_slice()));
            assert(strings_view(cands@) =~= before.push(t@));
        }
        k += 1;
    }
    assert(all.subrange(0, k as int) =~= all);
    let ghost fm_tags = strings_view(cands@);
    assert(fm_tags == frontmatter_tags(map_view(fm@)));
    let ghost names = sc@.tags.map_values(|g: crate::links::SpecTag| g.name);
    let mut i: usize = 0;
    while i < sc.tags.len()
        invariant
            i <= sc.tags@.len(),
            names == sc@.tags.map_values(|g: crate::links::SpecTag| g.name),
            names.len() == sc.tags@.len(),
            strings_view(cands@) == fm_tags + names.subrange(0, i as int),
        decreases sc.tags@.len() - i,
    {
        let ghost before = strings_view(cands@);
        let name = sc.tags[i].name.clone();
        cands.push(name);
        proof {
            assert(names[i as int] == sc.tags@[i as int].name@);
            assert(strings_view(cands@) =~= before.push(sc.tags@[i as int].name@));
            assert(strings_view(cands@) =~= fm_tags + names.subrange(0, i + 1));
        }
        i += 1;
    }
    proof {
        assert(names.subrange(0, i as int) =~= names);
        assert forall|t: Seq<char>|
            strings_view(cands@).contains(t) <==> is_note_tag(map_view(fm@), sc@, t) by {
            let cv = strings_view(cands@);
            if cv.contains(t) {
                let m = choose|m: int| 0 <= m < cv.len() && cv[m] == t;
                if m < fm_tags.len() {
                    assert(fm_tags[m] == t);
                } else {
                    assert(names[m - fm_tags.len()] == t);
                    assert(sc@.tags[m - fm_tags.len()].name == t);
                }
            }
            if fm_tags.contains(t) {
                let m = choose|m: int| 0 <= m < fm_tags.len() && fm_tags[m] == t;
                assert(cv[m] == t);
            }
            if exists|j: int| 0 <= j < sc@.tags.len() && #[trigger] sc@.tags[j].name == t {
                let j = choose|j: int| 0 <= j < sc@.tags.len() && #[trigger] sc@.tags[j].name == t;
                assert(cv[fm_tags.len() + j] == t);
            }
        }
    }
    sorted_unique(cands)
}

impl Note {
    /// Build a note from raw file contents.
    pub fn parse(path: &str, content: &str, size: u64, modified: Option<u64>) -> (r: Note)
        ensures
            r.meta.path@ == path@,
            map_view(r.frontmatter@) == note_frontmatter(content@),
            r.body@ == split_spec(content@).1,
            r.scan@ == spec_scan(r.body@),
            r.meta.title@ == title_spec(path@, map_view(r.frontmatter@), r.scan@),
            strings_view(r.meta.aliases@) == string_list_spec(
                map_get(map_view(r.frontmatter@), word_aliases()),
            ) + string_list_spec(map_get(map_view(r.frontmatter@), word_alias())),
            strictly_sorted(strings_view(r.meta.tags@)),
            forall|t: Seq<char>|
                strings_view(r.meta.tags@).contains(t) <==> is_note_tag(
                    map_view(r.frontmatter@),
                    r.scan@,
                    t,
                ),
            r.meta.size == size,
            r.meta.modified == modified,
            crate::links::lines_within(r.scan@, 1, crate::text::lines(r.body@).len()),
    {
        let sp = split(content);
        let fm: Entries = match &sp.raw {
            Some(raw) => parse(raw.as_str()),
            None => {
                proof {
                    crate::yaml::lemma_entries_view(Seq::<(String, Value)>::empty(), 0);
                }
                Vec::new()
            },
        };
        let body = sp.body;
        let sc = scan(body.as_str());
        proof {
            crate::links::lemma_scan_lines_in_body(body@);
        }
        let pc = chars_of(path);
        let title = string_of(title_of(pc.as_slice(), &fm, &sc).as_slice());
        let aliases_key = ['a', 'l', 'i', 'a', 's', 'e', 's'];
        let alias_key = ['a', 'l', 'i', 'a', 's'];
        assert(aliases_key@ =~= word_aliases());
        assert(alias_key@ =~= word_alias());
        let mut aliases = string_list(lookup(&fm, &aliases_key));
        let mut more = string_list(lookup(&fm, &alias_key));
        let ghost av = strings_view(aliases@) + strings_view(more@);
        aliases.append(&mut more);
        assert(strings_view(aliases@) =~= av);
        let tags = note_tags(&fm, &sc);
        Note {
            meta: NoteMeta { path: string_of(pc.as_slice()), title, aliases, tags, size, modified },
            frontmatter: fm,
            body,
            scan: sc,
        }
    }

    /// Re-render the note to the text that should be written to disk.
    pub fn to_content(&self) -> (r: String)
        ensures
            r@ == compose_spec(map_view(self.frontmatter@), self.body@),
    {
        compose(&self.frontmatter, self.body.as_str())
    }

    /// Filename stem, used for wikilink resolution.
    pub fn stem(&self) -> (r: String)
        ensures
            r@ == stem_of(self.meta.path@),
    {
        let p = chars_of(self.meta.path.as_str());
        string_of(stem_chars(p.as_slice()).as_slice())
    }
}

} // verus!
