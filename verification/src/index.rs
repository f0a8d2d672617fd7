//! The link graph over a vault.
//!
//! The index keeps every note's body in memory, which is what makes
//! resolution, backlinks and search cheap afterwards. Notes are text, so a
//! large personal vault costs a few megabytes.

use vstd::prelude::*;

use crate::links::{Heading, LinkRef, SpecLink, opt_view, strings_view};
use crate::note::{Note, NoteMeta, stem_of, file_name};
use crate::paths::{
    count_char, count_char_exec, dir_of, dir_of_exec, join_relative, join_relative_spec,
    strip_note_ext, strip_note_ext_spec, utf8_len,
};
use crate::sorting::{sorted_unique, strictly_sorted};
use crate::text::{
    byte_len, chars_of, lemma_lt_asymmetric, lemma_lt_irreflexive, lemma_lt_transitive,
    lemma_lt_trichotomy, lowercase, lt, seq_lt, slice_of, string_of, to_lower, trim, trim_vec,
    vec_eq,
};
use crate::yaml::Entries;

verus! {

/// A note as the index holds it.
pub struct IndexedNote {
    pub meta: NoteMeta,
    /// Kept so rewrites can re-emit the note without losing its frontmatter.
    pub frontmatter: Entries,
    pub body: String,
    pub links: Vec<LinkRef>,
    pub headings: Vec<Heading>,
}

/// An outgoing link with its resolution attempted.
pub struct ResolvedLink {
    pub link: LinkRef,
    /// Vault path the link points at, or `None` when nothing matches.
    pub resolved_path: Option<String>,
}

/// A reference to a note from somewhere else in the vault.
pub struct Backlink {
    /// Path of the note containing the reference.
    pub source: String,
    pub source_title: String,
    /// 1-based line within the source note's body.
    pub line: usize,
    /// The line the link appears on, trimmed.
    pub context: String,
    pub embed: bool,
}

pub struct UnresolvedLink {
    pub source: String,
    pub target: String,
    pub line: usize,
}

/// The notes of a vault, with the lowercased names each one answers to.
pub struct VaultIndex {
    notes: Vec<IndexedNote>,
    /// Per note: its lookup keys (stem, path without extension, path,
    /// aliases), lowercased, sorted and distinct.
    keys: Vec<Vec<String>>,
}

// ---------------------------------------------------------------------------
// the model
// ---------------------------------------------------------------------------

pub open spec fn path_of(n: IndexedNote) -> Seq<char> {
    n.meta.path@
}

/// The lowercased names a note answers to: its stem, its path without the
/// extension, its path, and its aliases.
pub open spec fn is_key(n: IndexedNote, k: Seq<char>) -> bool {
    ||| k == lowercase(stem_of(path_of(n)))
    ||| k == lowercase(strip_note_ext_spec(path_of(n)))
    ||| k == lowercase(path_of(n))
    ||| exists|j: int| 0 <= j < n.meta.aliases@.len() && k == lowercase(#[trigger] n.meta.aliases@[j]@)
}

pub open spec fn has_path(ns: Seq<IndexedNote>, p: Seq<char>) -> bool {
    exists|i: int| 0 <= i < ns.len() && path_of(#[trigger] ns[i]) == p
}

/// Index of the last note before `j` with path `p`.
pub open spec fn last_with(ns: Seq<IndexedNote>, p: Seq<char>, j: int) -> Option<int>
    decreases j,
{
    if j <= 0 {
        None
    } else if path_of(ns[j - 1]) == p {
        Some(j - 1)
    } else {
        last_with(ns, p, j - 1)
    }
}

/// The vault path an exact path names, tolerating a missing `.md`.
pub open spec fn match_exact_spec(ns: Seq<IndexedNote>, p: Seq<char>) -> Option<Seq<char>> {
    if has_path(ns, p) {
        Some(p)
    } else if has_path(ns, p + seq!['.', 'm', 'd']) {
        Some(p + seq!['.', 'm', 'd'])
    } else {
        None
    }
}

/// A relative target tried against a base directory.
pub open spec fn try_base(ns: Seq<IndexedNote>, base: Seq<char>, t: Seq<char>) -> Option<Seq<char>> {
    match join_relative_spec(base, t) {
        Some(j) => match_exact_spec(ns, j),
        None => None,
    }
}

/// Ranking of a candidate path when a bare name matches several notes: a
/// note in the linking note's folder first, then the shallowest, then the
/// shortest, then by path.
pub open spec fn rank_lt(p: Seq<char>, q: Seq<char>, from_dir: Seq<char>) -> bool {
    let sp: int = if dir_of(p) == from_dir { 0 } else { 1 };
    let sq: int = if dir_of(q) == from_dir { 0 } else { 1 };
    let dp = count_char(p, '/');
    let dq = count_char(q, '/');
    let lp = byte_len(p);
    let lq = byte_len(q);
    sp < sq || (sp == sq && (dp < dq || (dp == dq && (lp < lq || (lp == lq && seq_lt(p, q))))))
}

/// The best-ranked path among the notes `k..` answering to `key`, starting
/// from the best found so far.
pub open spec fn best_match(
    ns: Seq<IndexedNote>,
    key: Seq<char>,
    from_dir: Seq<char>,
    k: int,
    cur: Option<Seq<char>>,
) -> Option<Seq<char>>
    decreases ns.len() - k,
{
    if k < 0 || k >= ns.len() {
        cur
    } else {
        let next = if is_key(ns[k], key) {
            match cur {
                None => Some(path_of(ns[k])),
                Some(c) => if rank_lt(path_of(ns[k]), c, from_dir) {
                    Some(path_of(ns[k]))
                } else {
                    cur
                },
            }
        } else {
            cur
        };
        best_match(ns, key, from_dir, k + 1, next)
    }
}

pub open spec fn contains_char(s: Seq<char>, c: char) -> bool {
    exists|i: int| 0 <= i < s.len() && s[i] == c
}

/// The vault path a link target written inside `from` points at.
///
/// Path-like targets are tried relative to the linking note first, then the
/// vault root. Bare names match on filename, path or alias, best-ranked
/// first.
pub open spec fn resolve_spec(ns: Seq<IndexedNote>, from: Seq<char>, target: Seq<char>) -> Option<
    Seq<char>,
> {
    let t = trim(target);
    if t.len() == 0 {
        if has_path(ns, from) {
            Some(from)
        } else {
            None
        }
    } else {
        let rel = if contains_char(t, '/') || t[0] == '.' {
            match try_base(ns, dir_of(from), t) {
                Some(h) => Some(h),
                None => try_base(ns, seq![], t),
            }
        } else {
            None
        };
        match rel {
            Some(h) => Some(h),
            None => best_match(ns, lowercase(t), dir_of(from), 0, None),
        }
    }
}

/// Path-like targets (holding a `/` or starting with `.`) are tried relative
/// to the linking note's folder first: when joining the target onto that
/// folder names a note of the index, resolution gives that note, whatever
/// else the vault root holds.
pub proof fn lemma_resolve_prefers_linking_folder(ns: Seq<IndexedNote>, from: Seq<char>, target: Seq<char>, joined: Seq<char>)
    requires
        trim(target).len() > 0,
        contains_char(trim(target), '/') || trim(target)[0] == '.',
        join_relative_spec(dir_of(from), trim(target)) == Some(joined),
        exists|i: int| 0 <= i < ns.len() && path_of(#[trigger] ns[i]) == joined,
    ensures
        resolve_spec(ns, from, target) == Some(joined),
{
    assert(has_path(ns, joined));
}

/// A path-like target may leave off `.md`: when joining it onto the linking
/// note's folder names no note but does with `.md` added, resolution gives
/// that note.
pub proof fn lemma_resolve_adds_extension(ns: Seq<IndexedNote>, from: Seq<char>, target: Seq<char>, joined: Seq<char>)
    requires
        trim(target).len() > 0,
        contains_char(trim(target), '/') || trim(target)[0] == '.',
        join_relative_spec(dir_of(from), trim(target)) == Some(joined),
        !has_path(ns, joined),
        has_path(ns, joined + seq!['.', 'm', 'd']),
    ensures
        resolve_spec(ns, from, target) == Some(joined + seq!['.', 'm', 'd']),
{
}

/// When a path-like target names nothing relative to the linking note's
/// folder, it is tried from the vault root.
pub proof fn lemma_resolve_falls_back_to_root(ns: Seq<IndexedNote>, from: Seq<char>, target: Seq<char>, rooted: Seq<char>)
    requires
        trim(target).len() > 0,
        contains_char(trim(target), '/') || trim(target)[0] == '.',
        join_relative_spec(dir_of(from), trim(target)) matches Some(j) ==> !has_path(ns, j) && !has_path(
            ns,
            j + seq!['.', 'm', 'd'],
        ),
        join_relative_spec(seq![], trim(target)) == Some(rooted),
        has_path(ns, rooted),
    ensures
        resolve_spec(ns, from, target) == Some(rooted),
{
}

proof fn lemma_best_unique(
    ns: Seq<IndexedNote>,
    key: Seq<char>,
    from_dir: Seq<char>,
    k: int,
    cur: Option<Seq<char>>,
    p: Seq<char>,
)
    requires
        0 <= k,
        forall|j: int| k <= j < ns.len() && is_key(#[trigger] ns[j], key) ==> path_of(ns[j]) == p,
        cur is None || cur == Some(p),
    ensures
        best_match(ns, key, from_dir, k, cur) == if cur is Some || exists|j: int|
            k <= j < ns.len() && is_key(#[trigger] ns[j], key) {
            Some(p)
        } else {
            None::<Seq<char>>
        },
    decreases ns.len() - k,
{
    if k < ns.len() {
        let next = if is_key(ns[k], key) {
            match cur {
                None => Some(path_of(ns[k])),
                Some(c) => if rank_lt(path_of(ns[k]), c, from_dir) {
                    Some(path_of(ns[k]))
                } else {
                    cur
                },
            }
        } else {
            cur
        };
        lemma_best_unique(ns, key, from_dir, k + 1, next, p);
        if exists|j: int| k <= j < ns.len() && is_key(#[trigger] ns[j], key) {
            let j = choose|j: int| k <= j < ns.len() && is_key(#[trigger] ns[j], key);
            if j > k {
                assert(is_key(ns[j], key));
            }
        }
    }
}

/// A bare name (no `/`, not starting with `.`) that the notes of exactly one
/// path answer to resolves to that path, from wherever it is written.
pub proof fn lemma_unique_name_resolves(ns: Seq<IndexedNote>, from: Seq<char>, target: Seq<char>, p: Seq<char>)
    requires
        trim(target).len() > 0,
        !contains_char(trim(target), '/'),
        trim(target)[0] != '.',
        exists|j: int| 0 <= j < ns.len() && is_key(#[trigger] ns[j], lowercase(trim(target))),
        forall|j: int| 0 <= j < ns.len() && is_key(#[trigger] ns[j], lowercase(trim(target))) ==> path_of(ns[j]) == p,
    ensures
        resolve_spec(ns, from, target) == Some(p),
{
    lemma_best_unique(ns, lowercase(trim(target)), dir_of(from), 0, None, p);
}

impl VaultIndex {
    #[verifier::type_invariant]
    spec fn inv(self) -> bool {
        &&& self.keys@.len() == self.notes@.len()
        &&& forall|i: int|
            #![trigger self.keys@[i]]
            0 <= i < self.notes@.len() ==> strictly_sorted(strings_view(self.keys@[i]@))
                && forall|k: Seq<char>|
                strings_view(self.keys@[i]@).contains(k) <==> is_key(self.notes@[i], k)
    }

    /// The notes, in the order they were added.
    pub closed spec fn notes_view(self) -> Seq<IndexedNote> {
        self.notes@
    }
}

// ---------------------------------------------------------------------------
// building and looking up
// ---------------------------------------------------------------------------

fn lower(s: &[char]) -> (r: String)
    ensures
        r@ == lowercase(s@),
{
    string_of(to_lower(s).as_slice())
}

fn note_keys(note: &Note) -> (r: Vec<String>)
    ensures
        strictly_sorted(strings_view(r@)),
        forall|k: Seq<char>|
            strings_view(r@).contains(k) <==> ({
                ||| k == lowercase(stem_of(note.meta.path@))
                ||| k == lowercase(strip_note_ext_spec(note.meta.path@))
                ||| k == lowercase(note.meta.path@)
                ||| exists|j: int|
                    0 <= j < note.meta.aliases@.len() && k == lowercase(
                        #[trigger] note.meta.aliases@[j]@,
                    )
            }),
{
    let path = chars_of(note.meta.path.as_str());
    let stem = chars_of(note.stem().as_str());
    let without_ext = strip_note_ext(path.as_slice());
    let mut keys: Vec<String> = Vec::new();
    keys.push(lower(stem.as_slice()));
    keys.push(lower(without_ext.as_slice()));
    keys.push(lower(path.as_slice()));
    let mut j: usize = 0;
    while j < note.meta.aliases.len()
        invariant
            j <= note.meta.aliases@.len(),
            strings_view(keys@).len() == 3 + j,
            strings_view(keys@)[0] == lowercase(stem_of(note.meta.path@)),
            strings_view(keys@)[1] == lowercase(strip_note_ext_spec(note.meta.path@)),
            strings_view(keys@)[2] == lowercase(note.meta.path@),
            forall|m: int| 0 <= m < j ==> strings_view(keys@)[3 + m] == lowercase(
                #[trigger] note.meta.aliases@[m]@),
        decreases note.meta.aliases@.len() - j,
    {
        let a = chars_of(note.meta.aliases[j].as_str());
        keys.push(lower(a.as_slice()));
        j += 1;
    }
    let ghost kv = strings_view(keys@);
    let r = sorted_unique(keys);
    proof {
        assert forall|k: Seq<char>|
            kv.contains(k) <==> ({
                ||| k == lowercase(stem_of(note.meta.path@))
                ||| k == lowercase(strip_note_ext_spec(note.meta.path@))
                ||| k == lowercase(note.meta.path@)
                ||| exists|j: int|
                    0 <= j < note.meta.aliases@.len() && k == lowercase(
                        #[trigger] note.meta.aliases@[j]@,
                    )
            }) by {
            if kv.contains(k) {
                let m = choose|m: int| 0 <= m < kv.len() && kv[m] == k;
                if m >= 3 {
                    assert(k == lowercase(note.meta.aliases@[m - 3]@));
                }
            }
            if exists|j: int|
                0 <= j < note.meta.aliases@.len() && k == lowercase(
                    #[trigger] note.meta.aliases@[j]@,
                ) {
                let j = choose|j: int|
                    0 <= j < note.meta.aliases@.len() && k == lowercase(
                        #[trigger] note.meta.aliases@[j]@,
                    );
                assert(kv[3 + j] == k);
            }
            if k == lowercase(stem_of(note.meta.path@)) {
                assert(kv[0] == k);
            }
            if k == lowercase(strip_note_ext_spec(note.meta.path@)) {
                assert(kv[1] == k);
            }
            if k == lowercase(note.meta.path@) {
                assert(kv[2] == k);
            }
        }
    }
    r
}

impl VaultIndex {
    /// An index of the given notes, in the given order.
    pub fn build(notes: Vec<Note>) -> (r: VaultIndex)
        ensures
            r.notes_view().len() == notes@.len(),
            forall|i: int|
                0 <= i < notes@.len() ==> {
                    let n = #[trigger] r.notes_view()[i];
                    &&& n.meta == notes@[i].meta
                    &&& n.frontmatter == notes@[i].frontmatter
                    &&& n.body == notes@[i].body
                    &&& n.links == notes@[i].scan.links
                    &&& n.headings == notes@[i].scan.headings
                },
    {
        let ghost all = notes@;
        let mut rest = notes;
        let mut out: Vec<IndexedNote> = Vec::new();
        let mut keys: Vec<Vec<String>> = Vec::new();
        while rest.len() > 0
            invariant
                out@.len() + rest@.len() == all.len(),
                rest@ == all.subrange(out@.len() as int, all.len() as int),
                keys@.len() == out@.len(),
                forall|i: int|
                    0 <= i < out@.len() ==> {
                        let n = #[trigger] out@[i];
                        &&& n.meta == all[i].meta
                        &&& n.frontmatter == all[i].frontmatter
                        &&& n.body == all[i].body
                        &&& n.links == all[i].scan.links
                        &&& n.headings == all[i].scan.headings
                    },
                forall|i: int|
                    #![trigger keys@[i]]
                    0 <= i < out@.len() ==> strictly_sorted(strings_view(keys@[i]@)) && forall|
                        k: Seq<char>,
                    | strings_view(keys@[i]@).contains(k) <==> is_key(out@[i], k),
            decreases rest@.len(),
        {
            let note = rest.remove(0);
            let nk = note_keys(&note);
            let ghost before = out@;
            let entry = IndexedNote {
                meta: note.meta,
                frontmatter: note.frontmatter,
                body: note.body,
                links: note.scan.links,
                headings: note.scan.headings,
            };
            proof {
                assert forall|k: Seq<char>|
                    strings_view(nk@).contains(k) <==> is_key(entry, k) by {
                    if exists|j: int|
                        0 <= j < entry.meta.aliases@.len() && k == lowercase(
                            #[trigger] entry.meta.aliases@[j]@,
                        ) {
                        let j = choose|j: int|
                            0 <= j < entry.meta.aliases@.len() && k == lowercase(
                                #[trigger] entry.meta.aliases@[j]@,
                            );
                        assert(k == lowercase(entry.meta.aliases@[j]@));
                    }
                }
            }
            out.push(entry);
            keys.push(nk);
            assert(rest@ =~= all.subrange(out@.len() as int, all.len() as int));
        }
        VaultIndex { notes: out, keys }
    }
}

impl VaultIndex {
    pub fn len(&self) -> (r: usize)
        ensures
            r == self.notes_view().len(),
    {
        self.notes.len()
    }

    pub fn is_empty(&self) -> (r: bool)
        ensures
            r == (self.notes_view().len() == 0),
    {
        self.notes.len() == 0
    }

    pub fn notes(&self) -> (r: &[IndexedNote])
        ensures
            r@ == self.notes_view(),
    {
        self.notes.as_slice()
    }

    /// The note at `path`.
    pub fn get(&self, path: &str) -> (r: Option<&IndexedNote>)
        ensures
            match r {
                Some(n) => last_with(self.notes_view(), path@, self.notes_view().len() as int)
                    matches Some(i) && *n == self.notes_view()[i],
                None => last_with(self.notes_view(), path@, self.notes_view().len() as int) is None,
            },
    {
        let p = chars_of(path);
        match self.position(p.as_slice()) {
            Some(i) => Some(&self.notes[i]),
            None => None,
        }
    }

    fn position(&self, p: &[char]) -> (r: Option<usize>)
        ensures
            match r {
                Some(i) => last_with(self.notes@, p@, self.notes@.len() as int) == Some(i as int)
                    && i < self.notes@.len(),
                None => last_with(self.notes@, p@, self.notes@.len() as int) is None,
            },
    {
        let mut j = self.notes.len();
        while j > 0
            invariant
                j <= self.notes@.len(),
                last_with(self.notes@, p@, j as int) == last_with(
                    self.notes@,
                    p@,
                    self.notes@.len() as int,
                ),
            decreases j,
        {
            let q = chars_of(self.notes[j - 1].meta.path.as_str());
            if vec_eq(q.as_slice(), p) {
                return Some(j - 1);
            }
            j -= 1;
        }
        None
    }

    fn has_path_exec(&self, p: &[char]) -> (r: bool)
        ensures
            r == has_path(self.notes@, p@),
    {
        let found = self.position(p);
        proof {
            lemma_last_with(self.notes@, p@, self.notes@.len() as int);
        }
        found.is_some()
    }

    /// Exact path match, tolerating a missing `.md`.
    fn match_exact(&self, p: &[char]) -> (r: Option<Vec<char>>)
        ensures
            match r {
                Some(h) => match_exact_spec(self.notes@, p@) == Some(h@),
                None => match_exact_spec(self.notes@, p@) is None,
            },
    {
        if self.has_path_exec(p) {
            return Some(slice_of(p, 0, p.len()));
        }
        let mut with_ext = slice_of(p, 0, p.len());
        with_ext.push('.');
        with_ext.push('m');
        with_ext.push('d');
        assert(with_ext@ =~= p@ + seq!['.', 'm', 'd']);
        if self.has_path_exec(with_ext.as_slice()) {
            Some(with_ext)
        } else {
            None
        }
    }

    fn try_base_exec(&self, base: &[char], t: &[char]) -> (r: Option<Vec<char>>)
        ensures
            match r {
                Some(h) => try_base(self.notes@, base@, t@) == Some(h@),
                None => try_base(self.notes@, base@, t@) is None,
            },
    {
        match join_relative(base, t) {
            Some(j) => self.match_exact(j.as_slice()),
            None => None,
        }
    }

    #[verifier::loop_isolation(false)]
    fn keys_contain(&self, i: usize, key: &[char]) -> (r: bool)
        requires
            i < self.notes@.len(),
        ensures
            r == is_key(self.notes@[i as int], key@),
    {
        proof {
            use_type_invariant(self);
        }
        let ks = &self.keys[i];
        assert(strings_view(self.keys@[i as int]@) == strings_view(ks@));
        let mut m: usize = 0;
        while m < ks.len()
            invariant
                m <= ks@.len(),
                forall|x: int| 0 <= x < m ==> (#[trigger] ks@[x])@ != key@,
            decreases ks@.len() - m,
        {
            let c = chars_of(ks[m].as_str());
            if vec_eq(c.as_slice(), key) {
                assert(strings_view(ks@)[m as int] == key@);
                assert(strings_view(ks@).contains(key@));
                assert(strings_view(self.keys@[i as int]@).contains(key@));
                return true;
            }
            m += 1;
        }
        proof {
            if strings_view(ks@).contains(key@) {
                let x = choose|x: int| 0 <= x < strings_view(ks@).len() && strings_view(ks@)[x]
                    == key@;
                assert(ks@[x]@ == key@);
            }
        }
        false
    }

    /// Resolve a link target written inside `from` to a vault path.
    ///
    /// Path-like targets are tried relative to the linking note first, then the
    /// vault root. Bare names match on filename or alias, preferring a note in
    /// the same folder, then the shallowest path.
    pub fn resolve(&self, from: &str, target: &str) -> (r: Option<String>)
        ensures
            opt_view(r) == resolve_spec(self.notes_view(), from@, target@),
    {
        let fc = chars_of(from);
        let tc = chars_of(target);
        match self.resolve_chars(fc.as_slice(), tc.as_slice()) {
            Some(h) => Some(string_of(h.as_slice())),
            None => None,
        }
    }

    fn resolve_chars(&self, from: &[char], target: &[char]) -> (r: Option<Vec<char>>)
        ensures
            match r {
                Some(h) => resolve_spec(self.notes@, from@, target@) == Some(h@),
                None => resolve_spec(self.notes@, from@, target@) is None,
            },
    {
        let t = trim_vec(target);
        if t.len() == 0 {
            if self.has_path_exec(from) {
                return Some(slice_of(from, 0, from.len()));
            }
            return None;
        }
        let fd = dir_of_exec(from);
        let slash = crate::text::find_char(t.as_slice(), '/', 0) < t.len();
        proof {
            crate::text::lemma_find_from(t@, '/', 0);
            if contains_char(t@, '/') {
                let i = choose|i: int| 0 <= i < t@.len() && t@[i] == '/';
                assert(crate::text::find_from(t@, '/', 0) <= i);
            }
        }
        if slash || t[0] == '.' {
            match self.try_base_exec(fd.as_slice(), t.as_slice()) {
                Some(h) => {
                    return Some(h);
                },
                None => {},
            }
            let root: Vec<char> = Vec::new();
            assert(root@ =~= Seq::<char>::empty());
            match self.try_base_exec(root.as_slice(), t.as_slice()) {
                Some(h) => {
                    return Some(h);
                },
                None => {},
            }
        }
        let key = to_lower(t.as_slice());
        let mut best: Option<Vec<char>> = None;
        let mut k: usize = 0;
        while k < self.notes.len()
            invariant
                k <= self.notes@.len(),
                best_match(self.notes@, key@, fd@, k as int, opt_chars(best)) == best_match(
                    self.notes@,
                    key@,
                    fd@,
                    0,
                    None,
                ),
            decreases self.notes@.len() - k,
        {
            if self.keys_contain(k, key.as_slice()) {
                let p = chars_of(self.notes[k].meta.path.as_str());
                let better = match &best {
                    None => true,
                    Some(c) => rank_lt_exec(p.as_slice(), c.as_slice(), fd.as_slice()),
                };
                if better {
                    best = Some(p);
                }
            }
            k += 1;
        }
        best
    }
}

pub open spec fn vecs_view(v: Seq<Vec<char>>) -> Seq<Seq<char>> {
    v.map_values(|t: Vec<char>| t@)
}

pub open spec fn opt_chars(o: Option<Vec<char>>) -> Option<Seq<char>> {
    match o {
        Some(v) => Some(v@),
        None => None,
    }
}

fn rank_lt_exec(p: &[char], q: &[char], fd: &[char]) -> (r: bool)
    ensures
        r == rank_lt(p@, q@, fd@),
{
    let dp = dir_of_exec(p);
    let dq = dir_of_exec(q);
    let sp: u8 = if vec_eq(dp.as_slice(), fd) { 0 } else { 1 };
    let sq: u8 = if vec_eq(dq.as_slice(), fd) { 0 } else { 1 };
    if sp != sq {
        return sp < sq;
    }
    let cp = count_char_exec(p, '/');
    let cq = count_char_exec(q, '/');
    if cp != cq {
        return cp < cq;
    }
    let lp = utf8_len(p);
    let lq = utf8_len(q);
    if lp != lq {
        return lp < lq;
    }
    lt(p, q)
}

pub proof fn lemma_last_with(ns: Seq<IndexedNote>, p: Seq<char>, j: int)
    requires
        0 <= j <= ns.len(),
    ensures
        (last_with(ns, p, j) is Some) <==> exists|i: int| 0 <= i < j && path_of(#[trigger] ns[i]) == p,
        last_with(ns, p, j) matches Some(i) ==> 0 <= i < j && path_of(ns[i]) == p,
    decreases j,
{
    if j > 0 {
        lemma_last_with(ns, p, j - 1);
        if path_of(ns[j - 1]) != p {
            if exists|i: int| 0 <= i < j && path_of(#[trigger] ns[i]) == p {
                let i = choose|i: int| 0 <= i < j && path_of(#[trigger] ns[i]) == p;
                assert(i < j - 1);
            }
        }
    }
}

// ---------------------------------------------------------------------------
// laws of resolution
// ---------------------------------------------------------------------------

proof fn lemma_rank_irreflexive(p: Seq<char>, fd: Seq<char>)
    ensures
        !rank_lt(p, p, fd),
{
    lemma_lt_irreflexive(p);
}

proof fn lemma_rank_asymmetric(p: Seq<char>, q: Seq<char>, fd: Seq<char>)
    ensures
        rank_lt(p, q, fd) ==> !rank_lt(q, p, fd),
{
    lemma_lt_asymmetric(p, q);
}

proof fn lemma_rank_transitive(p: Seq<char>, q: Seq<char>, r: Seq<char>, fd: Seq<char>)
    requires
        rank_lt(p, q, fd),
        rank_lt(q, r, fd),
    ensures
        rank_lt(p, r, fd),
{
    if seq_lt(p, q) && seq_lt(q, r) {
        lemma_lt_transitive(p, q, r);
    }
}

proof fn lemma_best_from(
    ns: Seq<IndexedNote>,
    key: Seq<char>,
    fd: Seq<char>,
    k: int,
    cur: Option<Seq<char>>,
)
    requires
        0 <= k <= ns.len(),
    ensures
        (best_match(ns, key, fd, k, cur) is None) <==> (cur is None && forall|j: int|
            k <= j < ns.len() ==> !is_key(#[trigger] ns[j], key)),
        best_match(ns, key, fd, k, cur) matches Some(p) ==> (cur == Some(p) || exists|j: int|
            k <= j < ns.len() && is_key(#[trigger] ns[j], key) && path_of(ns[j]) == p),
        best_match(ns, key, fd, k, cur) matches Some(p) ==> forall|j: int|
            k <= j < ns.len() && is_key(#[trigger] ns[j], key) ==> !rank_lt(path_of(ns[j]), p, fd),
        best_match(ns, key, fd, k, cur) matches Some(p) ==> (cur matches Some(c) ==> (p == c
            || rank_lt(p, c, fd))),
    decreases ns.len() - k,
{
    if k < ns.len() {
        let next = if is_key(ns[k], key) {
            match cur {
                None => Some(path_of(ns[k])),
                Some(c) => if rank_lt(path_of(ns[k]), c, fd) {
                    Some(path_of(ns[k]))
                } else {
                    cur
                },
            }
        } else {
            cur
        };
        lemma_best_from(ns, key, fd, k + 1, next);
        let r = best_match(ns, key, fd, k, cur);
        assert(r == best_match(ns, key, fd, k + 1, next));
        if r is Some {
            let p = r->0;
            let n = next->0;
            lemma_rank_asymmetric(p, n, fd);
            lemma_rank_irreflexive(p, fd);
            if is_key(ns[k], key) {
                let pk = path_of(ns[k]);
                if rank_lt(pk, p, fd) {
                    if n == pk {
                        lemma_rank_asymmetric(pk, p, fd);
                    } else {
                        if p != n {
                            lemma_rank_transitive(pk, p, n, fd);
                        }
                    }
                }
            }
            if cur is Some {
                let c = cur->0;
                if n != c && p != n {
                    lemma_rank_transitive(p, n, c, fd);
                }
            }
        }
    }
}

/// When a bare name matches notes, the one chosen answers to it and no note
/// answering to it ranks before it; when none answers, nothing is chosen.
pub proof fn lemma_best_match(ns: Seq<IndexedNote>, key: Seq<char>, from_dir: Seq<char>)
    ensures
        match best_match(ns, key, from_dir, 0, None) {
            Some(p) => (exists|i: int|
                0 <= i < ns.len() && is_key(#[trigger] ns[i], key) && path_of(ns[i]) == p)
                && forall|i: int|
                0 <= i < ns.len() && is_key(#[trigger] ns[i], key) ==> !rank_lt(
                    path_of(ns[i]),
                    p,
                    from_dir,
                ),
            None => forall|i: int| 0 <= i < ns.len() ==> !is_key(#[trigger] ns[i], key),
        },
{
    lemma_best_from(ns, key, from_dir, 0, None);
}

/// Resolution only ever names a note that is in the index.
pub proof fn lemma_resolve_in_index(ns: Seq<IndexedNote>, from: Seq<char>, target: Seq<char>)
    ensures
        resolve_spec(ns, from, target) matches Some(p) ==> has_path(ns, p),
{
    let t = trim(target);
    lemma_best_from(ns, lowercase(t), dir_of(from), 0, None);
}

// ---------------------------------------------------------------------------
// the link graph
// ---------------------------------------------------------------------------

pub struct SpecResolved {
    pub link: SpecLink,
    pub resolved: Option<Seq<char>>,
}

pub open spec fn resolved_view(r: ResolvedLink) -> SpecResolved {
    SpecResolved { link: r.link@, resolved: opt_view(r.resolved_path) }
}

/// Where one outgoing link of the note at `path` points.
pub open spec fn link_resolution(ns: Seq<IndexedNote>, path: Seq<char>, l: SpecLink) -> Option<
    Seq<char>,
> {
    if l.target.len() == 0 {
        Some(path)
    } else {
        resolve_spec(ns, path, l.target)
    }
}

pub fn copy_string(s: &String) -> (r: String)
    ensures
        r@ == s@,
{
    s.clone()
}

fn copy_opt_string(s: &Option<String>) -> (r: Option<String>)
    ensures
        opt_view(r) == opt_view(*s),
{
    match s {
        Some(x) => Some(copy_string(x)),
        None => None,
    }
}

/// A field-by-field copy of a link.
pub fn copy_link(l: &LinkRef) -> (r: LinkRef)
    ensures
        r@ == l@,
{
    LinkRef {
        kind: l.kind,
        target: copy_string(&l.target),
        heading: copy_opt_string(&l.heading),
        alias: copy_opt_string(&l.alias),
        embed: l.embed,
        line: l.line,
    }
}

pub struct SpecBacklink {
    pub source: Seq<char>,
    pub source_title: Seq<char>,
    pub line: nat,
    pub context: Seq<char>,
    pub embed: bool,
}

pub open spec fn backlink_view(b: Backlink) -> SpecBacklink {
    SpecBacklink {
        source: b.source@,
        source_title: b.source_title@,
        line: b.line as nat,
        context: b.context@,
        embed: b.embed,
    }
}

/// The trimmed text of 1-based line `line` of `body`, or nothing past its end.
pub open spec fn line_context(body: Seq<char>, line: nat) -> Seq<char> {
    let ls = crate::text::lines(body);
    if 1 <= line <= ls.len() {
        trim(ls[line - 1])
    } else {
        seq![]
    }
}

/// Backlinks to `p` from the links `k..` of note `i`.
pub open spec fn note_backlinks(ns: Seq<IndexedNote>, p: Seq<char>, i: int, k: int) -> Seq<
    SpecBacklink,
>
    decreases ns[i].links@.len() - k,
{
    if k < 0 || k >= ns[i].links@.len() {
        seq![]
    } else {
        let l = ns[i].links@[k]@;
        let here = if l.target.len() > 0 && resolve_spec(ns, path_of(ns[i]), l.target) == Some(p) {
            seq![
                SpecBacklink {
                    source: path_of(ns[i]),
                    source_title: ns[i].meta.title@,
                    line: l.line,
                    context: line_context(ns[i].body@, l.line),
                    embed: l.embed,
                },
            ]
        } else {
            seq![]
        };
        here + note_backlinks(ns, p, i, k + 1)
    }
}

/// Backlinks to `p` from the notes `i..` other than `p` itself.
pub open spec fn all_backlinks(ns: Seq<IndexedNote>, p: Seq<char>, i: int) -> Seq<SpecBacklink>
    decreases ns.len() - i,
{
    if i < 0 || i >= ns.len() {
        seq![]
    } else {
        (if path_of(ns[i]) == p {
            seq![]
        } else {
            note_backlinks(ns, p, i, 0)
        }) + all_backlinks(ns, p, i + 1)
    }
}

pub struct SpecUnresolved {
    pub source: Seq<char>,
    pub target: Seq<char>,
    pub line: nat,
}

pub open spec fn unresolved_view(u: UnresolvedLink) -> SpecUnresolved {
    SpecUnresolved { source: u.source@, target: u.target@, line: u.line as nat }
}

/// Links `k..` of note `i` that resolve to nothing.
pub open spec fn note_unresolved(ns: Seq<IndexedNote>, i: int, k: int) -> Seq<SpecUnresolved>
    decreases ns[i].links@.len() - k,
{
    if k < 0 || k >= ns[i].links@.len() {
        seq![]
    } else {
        let l = ns[i].links@[k]@;
        let here = if l.target.len() > 0 && resolve_spec(ns, path_of(ns[i]), l.target) is None {
            seq![SpecUnresolved { source: path_of(ns[i]), target: l.target, line: l.line }]
        } else {
            seq![]
        };
        here + note_unresolved(ns, i, k + 1)
    }
}

pub open spec fn all_unresolved(ns: Seq<IndexedNote>, i: int) -> Seq<SpecUnresolved>
    decreases ns.len() - i,
{
    if i < 0 || i >= ns.len() {
        seq![]
    } else {
        note_unresolved(ns, i, 0) + all_unresolved(ns, i + 1)
    }
}

/// Some note links to `q`.
pub open spec fn linked(ns: Seq<IndexedNote>, q: Seq<char>) -> bool {
    exists|i: int, k: int|
        0 <= i < ns.len() && 0 <= k < ns[i].links@.len() && (#[trigger] ns[i].links@[k])@.target.len()
            > 0 && resolve_spec(ns, path_of(ns[i]), ns[i].links@[k]@.target) == Some(q)
}

/// Paths of the notes `i..` that link nowhere and that nothing links to.
pub open spec fn orphans_from(ns: Seq<IndexedNote>, i: int) -> Seq<Seq<char>>
    decreases ns.len() - i,
{
    if i < 0 || i >= ns.len() {
        seq![]
    } else {
        (if ns[i].links@.len() == 0 && !linked(ns, path_of(ns[i])) {
            seq![path_of(ns[i])]
        } else {
            seq![]
        }) + orphans_from(ns, i + 1)
    }
}

proof fn lemma_orphans_members(ns: Seq<IndexedNote>, i: int, q: Seq<char>)
    requires
        0 <= i,
    ensures
        orphans_from(ns, i).contains(q) <==> exists|j: int|
            i <= j < ns.len() && path_of(#[trigger] ns[j]) == q && ns[j].links@.len() == 0 && !linked(ns, q),
    decreases ns.len() - i,
{
    if i < ns.len() {
        lemma_orphans_members(ns, i + 1, q);
        let here: Seq<Seq<char>> = if ns[i].links@.len() == 0 && !linked(ns, path_of(ns[i])) {
            seq![path_of(ns[i])]
        } else {
            seq![]
        };
        let rest = orphans_from(ns, i + 1);
        assert(orphans_from(ns, i) == here + rest);
        if orphans_from(ns, i).contains(q) {
            let x = choose|x: int| 0 <= x < (here + rest).len() && (here + rest)[x] == q;
            if x >= here.len() {
                assert(rest[x - here.len()] == q);
                assert(rest.contains(q));
            } else {
                assert(path_of(ns[i]) == q);
            }
        }
        if exists|j: int|
            i <= j < ns.len() && path_of(#[trigger] ns[j]) == q && ns[j].links@.len() == 0 && !linked(ns, q) {
            let j = choose|j: int|
                i <= j < ns.len() && path_of(#[trigger] ns[j]) == q && ns[j].links@.len() == 0 && !linked(ns, q);
            if j == i {
                assert((here + rest)[0] == q);
            } else {
                assert(rest.contains(q));
                let x = choose|x: int| 0 <= x < rest.len() && rest[x] == q;
                assert((here + rest)[here.len() + x] == q);
            }
        }
    }
}

/// The orphans of an index built from notes are the paths of exactly those
/// notes that link nowhere and that no link, of any note, with a target
/// resolves to.
pub proof fn lemma_orphans_of_built(idx: VaultIndex, notes: Seq<Note>, q: Seq<char>)
    requires
        idx.notes_view().len() == notes.len(),
        forall|i: int|
            0 <= i < notes.len() ==> (#[trigger] idx.notes_view()[i]).meta == notes[i].meta
                && idx.notes_view()[i].links == notes[i].scan.links,
    ensures
        orphans_from(idx.notes_view(), 0).contains(q) <==> exists|i: int|
            0 <= i < notes.len() && (#[trigger] notes[i]).meta.path@ == q && notes[i].scan.links@.len() == 0
                && !(exists|j: int, k: int|
                0 <= j < notes.len() && 0 <= k < notes[j].scan.links@.len()
                    && (#[trigger] notes[j].scan.links@[k])@.target.len() > 0 && resolve_spec(
                    idx.notes_view(),
                    notes[j].meta.path@,
                    notes[j].scan.links@[k]@.target,
                ) == Some(q)),
{
    let ns = idx.notes_view();
    lemma_orphans_members(ns, 0, q);
    let lk = exists|j: int, k: int|
        0 <= j < notes.len() && 0 <= k < notes[j].scan.links@.len()
            && (#[trigger] notes[j].scan.links@[k])@.target.len() > 0 && resolve_spec(
            ns,
            notes[j].meta.path@,
            notes[j].scan.links@[k]@.target,
        ) == Some(q);
    assert(linked(ns, q) <==> lk) by {
        if linked(ns, q) {
            let (j, k) = choose|j: int, k: int|
                0 <= j < ns.len() && 0 <= k < ns[j].links@.len() && (#[trigger] ns[j].links@[k])@.target.len()
                    > 0 && resolve_spec(ns, path_of(ns[j]), ns[j].links@[k]@.target) == Some(q);
            assert(ns[j].links == notes[j].scan.links);
            assert(notes[j].scan.links@[k] == ns[j].links@[k]);
        }
        if lk {
            let (j, k) = choose|j: int, k: int|
                0 <= j < notes.len() && 0 <= k < notes[j].scan.links@.len()
                    && (#[trigger] notes[j].scan.links@[k])@.target.len() > 0 && resolve_spec(
                    ns,
                    notes[j].meta.path@,
                    notes[j].scan.links@[k]@.target,
                ) == Some(q);
            assert(ns[j].links == notes[j].scan.links);
            assert(ns[j].links@[k] == notes[j].scan.links@[k]);
        }
    }
    if orphans_from(ns, 0).contains(q) {
        let j = choose|j: int|
            0 <= j < ns.len() && path_of(#[trigger] ns[j]) == q && ns[j].links@.len() == 0 && !linked(ns, q);
        assert(notes[j].meta == ns[j].meta);
    }
    if exists|i: int|
        0 <= i < notes.len() && (#[trigger] notes[i]).meta.path@ == q && notes[i].scan.links@.len() == 0 && !lk {
        let i = choose|i: int|
            0 <= i < notes.len() && (#[trigger] notes[i]).meta.path@ == q && notes[i].scan.links@.len() == 0 && !lk;
        assert(ns[i].meta == notes[i].meta);
        assert(ns[i].links == notes[i].scan.links);
    }
}

impl VaultIndex {
    /// Every outgoing link of a note, resolved where possible.
    pub fn outgoing(&self, path: &str) -> (r: Vec<ResolvedLink>)
        ensures
            match last_with(self.notes_view(), path@, self.notes_view().len() as int) {
                Some(i) => r@.len() == self.notes_view()[i].links@.len() && forall|k: int|
                    0 <= k < r@.len() ==> resolved_view(#[trigger] r@[k]) == (SpecResolved {
                        link: self.notes_view()[i].links@[k]@,
                        resolved: link_resolution(
                            self.notes_view(),
                            path@,
                            self.notes_view()[i].links@[k]@,
                        ),
                    }),
                None => r@.len() == 0,
            },
    {
        let pc = chars_of(path);
        let i = match self.position(pc.as_slice()) {
            Some(i) => i,
            None => {
                return Vec::new();
            },
        };
        let note = &self.notes[i];
        let mut out: Vec<ResolvedLink> = Vec::new();
        let mut k: usize = 0;
        while k < note.links.len()
            invariant
                k <= note.links@.len(),
                i < self.notes@.len(),
                note == self.notes@[i as int],
                out@.len() == k,
                pc@ == path@,
                forall|m: int|
                    0 <= m < k ==> resolved_view(#[trigger] out@[m]) == (SpecResolved {
                        link: note.links@[m]@,
                        resolved: link_resolution(self.notes@, path@, note.links@[m]@),
                    }),
            decreases note.links@.len() - k,
        {
            let link = &note.links[k];
            let tc = chars_of(link.target.as_str());
            let resolved = if tc.len() == 0 {
                Some(string_of(pc.as_slice()))
            } else {
                match self.resolve_chars(pc.as_slice(), tc.as_slice()) {
                    Some(h) => Some(string_of(h.as_slice())),
                    None => None,
                }
            };
            proof {
                if link.target@.len() != 0 {
                    assert(link@.target.len() != 0);
                }
            }
            out.push(ResolvedLink { link: copy_link(link), resolved_path: resolved });
            k += 1;
        }
        out
    }

    /// Every note that links to `path`.
    pub fn backlinks(&self, path: &str) -> (r: Vec<Backlink>)
        ensures
            r@.map_values(|b: Backlink| backlink_view(b)) == all_backlinks(
                self.notes_view(),
                path@,
                0,
            ),
    {
        let pc = chars_of(path);
        let ghost ns = self.notes@;
        let ghost total = all_backlinks(ns, path@, 0);
        let mut out: Vec<Backlink> = Vec::new();
        let mut i: usize = 0;
        while i < self.notes.len()
            invariant
                i <= ns.len(),
                ns == self.notes@,
                pc@ == path@,
                out@.map_values(|b: Backlink| backlink_view(b)) + all_backlinks(ns, path@, i as int)
                    == total,
            decreases ns.len() - i,
        {
            let note = &self.notes[i];
            let np = chars_of(note.meta.path.as_str());
            let ghost before = out@.map_values(|b: Backlink| backlink_view(b));
            if vec_eq(np.as_slice(), pc.as_slice()) {
                assert(all_backlinks(ns, path@, i as int) =~= all_backlinks(ns, path@, i + 1));
                i += 1;
                continue;
            }
            let lines = crate::text::split_lines(chars_of(note.body.as_str()).as_slice());
            let mut k: usize = 0;
            while k < note.links.len()
                invariant
                    k <= note.links@.len(),
                    i < ns.len(),
                    ns == self.notes@,
                    note == ns[i as int],
                    np@ == path_of(ns[i as int]),
                    np@ != path@,
                    pc@ == path@,
                    lines@.map_values(|l: Vec<char>| l@) == crate::text::lines(note.body@),
                    out@.map_values(|b: Backlink| backlink_view(b)) + note_backlinks(
                        ns,
                        path@,
                        i as int,
                        k as int,
                    ) + all_backlinks(ns, path@, i + 1) == total,
                decreases note.links@.len() - k,
            {
                let link = &note.links[k];
                let ghost mid = out@.map_values(|b: Backlink| backlink_view(b));
                let tc = chars_of(link.target.as_str());
                if tc.len() > 0 {
                    let hit = match self.resolve_chars(np.as_slice(), tc.as_slice()) {
                        Some(h) => vec_eq(h.as_slice(), pc.as_slice()),
                        None => false,
                    };
                    if hit {
                        let context = if link.line >= 1 && link.line - 1 < lines.len() {
                            trim_vec(lines[link.line - 1].as_slice())
                        } else {
                            Vec::new()
                        };
                        proof {
                            let ls = crate::text::lines(note.body@);
                            if link.line >= 1 && link.line - 1 < lines@.len() {
                                assert(ls[link.line - 1] == lines@[link.line - 1]@);
                            }
                            assert(context@ == line_context(note.body@, link@.line));
                        }
                        out.push(Backlink {
                            source: copy_string(&note.meta.path),
                            source_title: copy_string(&note.meta.title),
                            line: link.line,
                            context: string_of(context.as_slice()),
                            embed: link.embed,
                        });
                    }
                }
                proof {
                    assert(out@.map_values(|b: Backlink| backlink_view(b)) + note_backlinks(
                        ns,
                        path@,
                        i as int,
                        k + 1,
                    ) =~= mid + note_backlinks(ns, path@, i as int, k as int));
                }
                k += 1;
            }
            proof {
                assert(out@.map_values(|b: Backlink| backlink_view(b)) + note_backlinks(
                    ns,
                    path@,
                    i as int,
                    k as int,
                ) =~= out@.map_values(|b: Backlink| backlink_view(b)));
                assert(before + all_backlinks(ns, path@, i as int) =~= before + note_backlinks(
                    ns,
                    path@,
                    i as int,
                    0,
                ) + all_backlinks(ns, path@, i + 1));
            }
            i += 1;
        }
        assert(out@.map_values(|b: Backlink| backlink_view(b)) + all_backlinks(ns, path@, i as int)
            =~= out@.map_values(|b: Backlink| backlink_view(b)));
        out
    }
}

impl VaultIndex {
    /// Links that point at nothing — the vault's to-write list.
    pub fn unresolved(&self) -> (r: Vec<UnresolvedLink>)
        ensures
            r@.map_values(|u: UnresolvedLink| unresolved_view(u)) == all_unresolved(
                self.notes_view(),
                0,
            ),
    {
        let ghost ns = self.notes@;
        let ghost total = all_unresolved(ns, 0);
        let mut out: Vec<UnresolvedLink> = Vec::new();
        let mut i: usize = 0;
        while i < self.notes.len()
            invariant
                i <= ns.len(),
                ns == self.notes@,
                out@.map_values(|u: UnresolvedLink| unresolved_view(u)) + all_unresolved(
                    ns,
                    i as int,
                ) == total,
            decreases ns.len() - i,
        {
            let note = &self.notes[i];
            let np = chars_of(note.meta.path.as_str());
            let ghost before = out@.map_values(|u: UnresolvedLink| unresolved_view(u));
            let mut k: usize = 0;
            while k < note.links.len()
                invariant
                    k <= note.links@.len(),
                    i < ns.len(),
                    ns == self.notes@,
                    note == ns[i as int],
                    np@ == path_of(ns[i as int]),
                    out@.map_values(|u: UnresolvedLink| unresolved_view(u)) + note_unresolved(
                        ns,
                        i as int,
                        k as int,
                    ) + all_unresolved(ns, i + 1) == total,
                decreases note.links@.len() - k,
            {
                let link = &note.links[k];
                let ghost mid = out@.map_values(|u: UnresolvedLink| unresolved_view(u));
                let tc = chars_of(link.target.as_str());
                if tc.len() > 0 {
                    if self.resolve_chars(np.as_slice(), tc.as_slice()).is_none() {
                        out.push(
                            UnresolvedLink {
                                source: copy_string(&note.meta.path),
                                target: copy_string(&link.target),
                                line: link.line,
                            },
                        );
                    }
                }
                proof {
                    assert(out@.map_values(|u: UnresolvedLink| unresolved_view(u)) + note_unresolved(
                        ns,
                        i as int,
                        k + 1,
                    ) =~= mid + note_unresolved(ns, i as int, k as int));
                }
                k += 1;
            }
            proof {
                assert(out@.map_values(|u: UnresolvedLink| unresolved_view(u)) + note_unresolved(
                    ns,
                    i as int,
                    k as int,
                ) =~= out@.map_values(|u: UnresolvedLink| unresolved_view(u)));
            }
            i += 1;
        }
        assert(out@.map_values(|u: UnresolvedLink| unresolved_view(u)) + all_unresolved(
            ns,
            i as int,
        ) =~= out@.map_values(|u: UnresolvedLink| unresolved_view(u)));
        out
    }

    /// Notes nothing links to and that link nowhere.
    pub fn orphans(&self) -> (r: Vec<String>)
        ensures
            strings_view(r@) == orphans_from(self.notes_view(), 0),
    {
        let ghost ns = self.notes@;
        let mut targets: Vec<Vec<char>> = Vec::new();
        let mut i: usize = 0;
        while i < self.notes.len()
            invariant
                i <= ns.len(),
                ns == self.notes@,
                forall|q: Seq<char>|
                    #[trigger] vecs_view(targets@).contains(q) <==> exists|a: int, k: int|
                        0 <= a < i && 0 <= k < ns[a].links@.len()
                            && (#[trigger] ns[a].links@[k])@.target.len() > 0 && resolve_spec(
                            ns,
                            path_of(ns[a]),
                            ns[a].links@[k]@.target,
                        ) == Some(q),
            decreases ns.len() - i,
        {
            let note = &self.notes[i];
            let np = chars_of(note.meta.path.as_str());
            let mut k: usize = 0;
            while k < note.links.len()
                invariant
                    k <= note.links@.len(),
                    i < ns.len(),
                    ns == self.notes@,
                    note == ns[i as int],
                    np@ == path_of(ns[i as int]),
                    forall|q: Seq<char>|
                        #[trigger] vecs_view(targets@).contains(q) <==> (exists|a: int, m: int|
                            0 <= a < i && 0 <= m < ns[a].links@.len()
                                && (#[trigger] ns[a].links@[m])@.target.len() > 0 && resolve_spec(
                                ns,
                                path_of(ns[a]),
                                ns[a].links@[m]@.target,
                            ) == Some(q)) || (exists|m: int|
                            0 <= m < k && (#[trigger] ns[i as int].links@[m])@.target.len() > 0
                                && resolve_spec(ns, path_of(ns[i as int]), ns[i as int].links@[m]@.target)
                                == Some(q)),
                decreases note.links@.len() - k,
            {
                let link = &note.links[k];
                let tc = chars_of(link.target.as_str());
                let ghost old_t = vecs_view(targets@);
                if tc.len() > 0 {
                    match self.resolve_chars(np.as_slice(), tc.as_slice()) {
                        Some(h) => {
                            targets.push(h);
                        },
                        None => {},
                    }
                }
                proof {
                    let nt = vecs_view(targets@);
                    assert forall|q: Seq<char>|
                        #[trigger] nt.contains(q) <==> (exists|a: int, m: int|
                            0 <= a < i && 0 <= m < ns[a].links@.len()
                                && (#[trigger] ns[a].links@[m])@.target.len() > 0 && resolve_spec(
                                ns,
                                path_of(ns[a]),
                                ns[a].links@[m]@.target,
                            ) == Some(q)) || (exists|m: int|
                            0 <= m < k + 1 && (#[trigger] ns[i as int].links@[m])@.target.len() > 0
                                && resolve_spec(ns, path_of(ns[i as int]), ns[i as int].links@[m]@.target)
                                == Some(q)) by {
                        if nt.len() > old_t.len() {
                            assert(nt =~= old_t.push(nt.last()));
                        } else {
                            assert(nt =~= old_t);
                        }
                        if nt.contains(q) {
                            let x = choose|x: int| 0 <= x < nt.len() && nt[x] == q;
                            if x < old_t.len() {
                                assert(old_t[x] == q);
                                assert(old_t.contains(q));
                            }
                        }
                        if old_t.contains(q) {
                            let x = choose|x: int| 0 <= x < old_t.len() && old_t[x] == q;
                            assert(nt[x] == q);
                        }
                        if exists|m: int|
                            0 <= m < k + 1 && (#[trigger] ns[i as int].links@[m])@.target.len() > 0
                                && resolve_spec(ns, path_of(ns[i as int]), ns[i as int].links@[m]@.target)
                                == Some(q) {
                            let m = choose|m: int|
                                0 <= m < k + 1 && (#[trigger] ns[i as int].links@[m])@.target.len() > 0
                                    && resolve_spec(
                                    ns,
                                    path_of(ns[i as int]),
                                    ns[i as int].links@[m]@.target,
                                ) == Some(q);
                            if m == k {
                                assert(nt[nt.len() - 1] == q);
                            }
                        }
                    }
                }
                k += 1;
            }
            proof {
                let nt = vecs_view(targets@);
                assert forall|q: Seq<char>|
                    #[trigger] nt.contains(q) <==> exists|a: int, m: int|
                        0 <= a < i + 1 && 0 <= m < ns[a].links@.len()
                            && (#[trigger] ns[a].links@[m])@.target.len() > 0 && resolve_spec(
                            ns,
                            path_of(ns[a]),
                            ns[a].links@[m]@.target,
                        ) == Some(q) by {
                    if exists|a: int, m: int|
                        0 <= a < i + 1 && 0 <= m < ns[a].links@.len()
                            && (#[trigger] ns[a].links@[m])@.target.len() > 0 && resolve_spec(
                            ns,
                            path_of(ns[a]),
                            ns[a].links@[m]@.target,
                        ) == Some(q) {
                        let (a, m) = choose|a: int, m: int|
                            0 <= a < i + 1 && 0 <= m < ns[a].links@.len()
                                && (#[trigger] ns[a].links@[m])@.target.len() > 0 && resolve_spec(
                                ns,
                                path_of(ns[a]),
                                ns[a].links@[m]@.target,
                            ) == Some(q);
                        if a == i {
                            assert(ns[i as int].links@[m]@.target.len() > 0);
                        }
                    }
                }
            }
            i += 1;
        }
        let ghost tv = vecs_view(targets@);
        assert forall|q: Seq<char>| #[trigger] tv.contains(q) <==> linked(ns, q) by {}
        let mut out: Vec<String> = Vec::new();
        let mut j: usize = 0;
        while j < self.notes.len()
            invariant
                j <= ns.len(),
                ns == self.notes@,
                tv == vecs_view(targets@),
                forall|q: Seq<char>| #[trigger] tv.contains(q) <==> linked(ns, q),
                strings_view(out@) + orphans_from(ns, j as int) == orphans_from(ns, 0),
            decreases ns.len() - j,
        {
            let note = &self.notes[j];
            let ghost before = strings_view(out@);
            if note.links.len() == 0 {
                let np = chars_of(note.meta.path.as_str());
                let mut found = false;
                let mut x: usize = 0;
                while x < targets.len()
                    invariant
                        x <= targets@.len(),
                        found == exists|y: int| 0 <= y < x && targets@[y]@ == np@,
                    decreases targets@.len() - x,
                {
                    if vec_eq(targets[x].as_slice(), np.as_slice()) {
                        found = true;
                    }
                    x += 1;
                }
                proof {
                    if tv.contains(np@) {
                        let y = choose|y: int| 0 <= y < tv.len() && tv[y] == np@;
                        assert(targets@[y]@ == np@);
                    }
                    if found {
                        let y = choose|y: int| 0 <= y < x && targets@[y]@ == np@;
                        assert(tv[y] == np@);
                    }
                }
                if !found {
                    out.push(copy_string(&note.meta.path));
                    assert(strings_view(out@) =~= before.push(np@));
                }
            }
            assert(strings_view(out@) + orphans_from(ns, j + 1) =~= before + orphans_from(
                ns,
                j as int,
            ));
            j += 1;
        }
        assert(strings_view(out@) + orphans_from(ns, j as int) =~= strings_view(out@));
        out
    }
}

// ---------------------------------------------------------------------------
// tags
// ---------------------------------------------------------------------------

/// Occurrences of `t` in `s`.
pub open spec fn occurrences(s: Seq<Seq<char>>, t: Seq<char>) -> nat
    decreases s.len(),
{
    if s.len() == 0 {
        0
    } else {
        occurrences(s.drop_last(), t) + if s.last() == t {
            1nat
        } else {
            0nat
        }
    }
}

pub open spec fn note_tags(n: IndexedNote) -> Seq<Seq<char>> {
    strings_view(n.meta.tags@)
}

/// How often `t` is listed among the tags of the notes before `i`.
pub open spec fn tag_count(ns: Seq<IndexedNote>, t: Seq<char>, i: int) -> nat
    decreases i,
{
    if i <= 0 || i > ns.len() {
        0
    } else {
        tag_count(ns, t, i - 1) + occurrences(note_tags(ns[i - 1]), t)
    }
}

/// Number of tag entries of the notes before `i`.
pub open spec fn tag_entries(ns: Seq<IndexedNote>, i: int) -> nat
    decreases i,
{
    if i <= 0 || i > ns.len() {
        0
    } else {
        tag_entries(ns, i - 1) + note_tags(ns[i - 1]).len()
    }
}

pub open spec fn has_tag(ns: Seq<IndexedNote>, t: Seq<char>) -> bool {
    exists|i: int, j: int| 0 <= i < ns.len() && 0 <= j < note_tags(ns[i]).len() && #[trigger] note_tags(ns[i])[j] == t
}

proof fn lemma_occurrences(s: Seq<Seq<char>>, t: Seq<char>)
    ensures
        occurrences(s, t) <= s.len(),
        occurrences(s, t) > 0 ==> s.contains(t),
    decreases s.len(),
{
    if s.len() > 0 {
        lemma_occurrences(s.drop_last(), t);
        if occurrences(s.drop_last(), t) > 0 {
            let x = choose|x: int| 0 <= x < s.drop_last().len() && #[trigger] s.drop_last()[x] == t;
            assert(s[x] == t);
        }
        if s.last() == t {
            assert(s[s.len() - 1] == t);
        }
    }
}

proof fn lemma_tag_count(ns: Seq<IndexedNote>, t: Seq<char>, i: int)
    requires
        0 <= i <= ns.len(),
    ensures
        tag_count(ns, t, i) <= tag_entries(ns, i),
        tag_count(ns, t, i) > 0 ==> exists|a: int, j: int|
            0 <= a < i && 0 <= j < note_tags(ns[a]).len() && #[trigger] note_tags(ns[a])[j] == t,
    decreases i,
{
    if i > 0 {
        lemma_tag_count(ns, t, i - 1);
        lemma_occurrences(note_tags(ns[i - 1]), t);
        if occurrences(note_tags(ns[i - 1]), t) > 0 {
            let j = choose|j: int|
                0 <= j < note_tags(ns[i - 1]).len() && #[trigger] note_tags(ns[i - 1])[j] == t;
            assert(note_tags(ns[i - 1])[j] == t);
        }
    }
}

proof fn lemma_tag_entries_mono(ns: Seq<IndexedNote>, i: int, j: int)
    requires
        0 <= i <= j <= ns.len(),
    ensures
        tag_entries(ns, i) <= tag_entries(ns, j),
    decreases j - i,
{
    if i < j {
        lemma_tag_entries_mono(ns, i, j - 1);
    }
}

/// Number of the notes before `i` that carry tag `t`.
pub open spec fn notes_tagged(ns: Seq<IndexedNote>, t: Seq<char>, i: int) -> nat
    decreases i,
{
    if i <= 0 || i > ns.len() {
        0
    } else {
        notes_tagged(ns, t, i - 1) + if note_tags(ns[i - 1]).contains(t) {
            1nat
        } else {
            0nat
        }
    }
}

proof fn lemma_occurrences_once(s: Seq<Seq<char>>, t: Seq<char>)
    requires
        strictly_sorted(s),
    ensures
        occurrences(s, t) == if s.contains(t) {
            1nat
        } else {
            0nat
        },
    decreases s.len(),
{
    if s.len() > 0 {
        let d = s.drop_last();
        assert(strictly_sorted(d)) by {
            assert forall|i: int, j: int| 0 <= i < j < d.len() implies seq_lt(#[trigger] d[i], #[trigger] d[j]) by {
                assert(d[i] == s[i] && d[j] == s[j]);
            }
        }
        lemma_occurrences_once(d, t);
        if s.last() == t {
            if d.contains(t) {
                let x = choose|x: int| 0 <= x < d.len() && d[x] == t;
                assert(seq_lt(s[x], s[s.len() - 1]));
                lemma_lt_irreflexive(t);
            }
            assert(s[s.len() - 1] == t);
        } else {
            if s.contains(t) {
                let x = choose|x: int| 0 <= x < s.len() && s[x] == t;
                assert(x < s.len() - 1);
                assert(d[x] == t);
            }
            if d.contains(t) {
                let x = choose|x: int| 0 <= x < d.len() && d[x] == t;
                assert(s[x] == t);
            }
        }
    }
}

proof fn lemma_tag_count_notes(ns: Seq<IndexedNote>, t: Seq<char>, i: int)
    requires
        0 <= i <= ns.len(),
        forall|k: int| 0 <= k < ns.len() ==> strictly_sorted(note_tags(#[trigger] ns[k])),
    ensures
        tag_count(ns, t, i) == notes_tagged(ns, t, i),
    decreases i,
{
    if i > 0 {
        lemma_tag_count_notes(ns, t, i - 1);
        lemma_occurrences_once(note_tags(ns[i - 1]), t);
    }
}

/// In an index built from parsed notes, each of which lists a tag at most
/// once, a tag's count is the number of notes that carry it; a tag is listed
/// exactly when at least one note carries it, so one no note carries is not
/// listed at all.
pub proof fn lemma_tag_count_of_built(idx: VaultIndex, notes: Seq<Note>, t: Seq<char>)
    requires
        idx.notes_view().len() == notes.len(),
        forall|i: int| 0 <= i < notes.len() ==> (#[trigger] idx.notes_view()[i]).meta == notes[i].meta,
        forall|i: int| 0 <= i < notes.len() ==> strictly_sorted(strings_view((#[trigger] notes[i]).meta.tags@)),
    ensures
        tag_count(idx.notes_view(), t, notes.len() as int) == notes_tagged(
            idx.notes_view(),
            t,
            notes.len() as int,
        ),
        notes_tagged(idx.notes_view(), t, notes.len() as int) <= notes.len(),
        has_tag(idx.notes_view(), t) <==> notes_tagged(idx.notes_view(), t, notes.len() as int) >= 1,
{
    lemma_notes_tagged_pos(idx.notes_view(), t, notes.len() as int);
    let ns = idx.notes_view();
    assert forall|k: int| 0 <= k < ns.len() implies strictly_sorted(note_tags(#[trigger] ns[k])) by {
        assert(ns[k].meta == notes[k].meta);
        assert(strictly_sorted(strings_view(notes[k].meta.tags@)));
    }
    lemma_tag_count_notes(ns, t, ns.len() as int);
    lemma_notes_tagged_bound(ns, t, ns.len() as int);
}

proof fn lemma_notes_tagged_pos(ns: Seq<IndexedNote>, t: Seq<char>, i: int)
    requires
        0 <= i <= ns.len(),
    ensures
        notes_tagged(ns, t, i) >= 1 <==> exists|a: int, j: int|
            0 <= a < i && 0 <= j < note_tags(ns[a]).len() && #[trigger] note_tags(ns[a])[j] == t,
    decreases i,
{
    if i > 0 {
        lemma_notes_tagged_pos(ns, t, i - 1);
        let s = note_tags(ns[i - 1]);
        if s.contains(t) {
            let j = choose|j: int| 0 <= j < s.len() && s[j] == t;
            assert(note_tags(ns[i - 1])[j] == t);
        }
        if exists|a: int, j: int|
            0 <= a < i && 0 <= j < note_tags(ns[a]).len() && #[trigger] note_tags(ns[a])[j] == t {
            let (a, j) = choose|a: int, j: int|
                0 <= a < i && 0 <= j < note_tags(ns[a]).len() && #[trigger] note_tags(ns[a])[j] == t;
            if a == i - 1 {
                assert(s[j] == t);
                assert(s.contains(t));
            }
        }
    }
}

proof fn lemma_notes_tagged_bound(ns: Seq<IndexedNote>, t: Seq<char>, i: int)
    requires
        0 <= i <= ns.len(),
    ensures
        notes_tagged(ns, t, i) <= i,
    decreases i,
{
    if i > 0 {
        lemma_notes_tagged_bound(ns, t, i - 1);
    }
}

pub open spec fn counts_view(r: Seq<(String, usize)>) -> Seq<Seq<char>> {
    r.map_values(|e: (String, usize)| e.0@)
}

impl VaultIndex {
    /// Tag counts across the vault, sorted by name.
    pub fn tags(&self) -> (r: Vec<(String, usize)>)
        requires
            tag_entries(self.notes_view(), self.notes_view().len() as int) <= usize::MAX,
        ensures
            strictly_sorted(counts_view(r@)),
            forall|t: Seq<char>| #[trigger] counts_view(r@).contains(t) <==> has_tag(self.notes_view(), t),
            forall|m: int|
                0 <= m < r@.len() ==> (#[trigger] r@[m]).1 == tag_count(
                    self.notes_view(),
                    r@[m].0@,
                    self.notes_view().len() as int,
                ),
    {
        let ghost ns = self.notes@;
        let mut out: Vec<(String, usize)> = Vec::new();
        let mut i: usize = 0;
        while i < self.notes.len()
            invariant
                i <= ns.len(),
                ns == self.notes@,
                tag_entries(ns, ns.len() as int) <= usize::MAX,
                strictly_sorted(counts_view(out@)),
                forall|t: Seq<char>|
                    #[trigger] counts_view(out@).contains(t) <==> exists|a: int, j: int|
                        0 <= a < i && 0 <= j < note_tags(ns[a]).len() && #[trigger] note_tags(
                            ns[a],
                        )[j] == t,
                forall|m: int|
                    0 <= m < out@.len() ==> (#[trigger] out@[m]).1 == tag_count(
                        ns,
                        out@[m].0@,
                        i as int,
                    ),
            decreases ns.len() - i,
        {
            let tags = &self.notes[i].meta.tags;
            proof {
                lemma_tag_entries_mono(ns, i + 1, ns.len() as int);
            }
            let mut j: usize = 0;
            while j < tags.len()
                invariant
                    j <= tags@.len(),
                    i < ns.len(),
                    ns == self.notes@,
                    tags@ == ns[i as int].meta.tags@,
                    tag_entries(ns, i + 1) <= usize::MAX,
                    strictly_sorted(counts_view(out@)),
                    forall|t: Seq<char>|
                        #[trigger] counts_view(out@).contains(t) <==> (exists|a: int, b: int|
                            0 <= a < i && 0 <= b < note_tags(ns[a]).len() && #[trigger] note_tags(
                                ns[a],
                            )[b] == t) || (exists|b: int|
                            0 <= b < j && #[trigger] note_tags(ns[i as int])[b] == t),
                    forall|m: int|
                        0 <= m < out@.len() ==> (#[trigger] out@[m]).1 == tag_count(
                            ns,
                            out@[m].0@,
                            i as int,
                        ) + occurrences(note_tags(ns[i as int]).subrange(0, j as int), out@[m].0@),
                decreases tags@.len() - j,
            {
                self.count_tag(&mut out, &tags[j], Ghost(i as int), Ghost(j as int));
                j += 1;
            }
            proof {
                assert(note_tags(ns[i as int]).subrange(0, j as int) =~= note_tags(ns[i as int]));
                assert forall|t: Seq<char>|
                    #[trigger] counts_view(out@).contains(t) <==> exists|a: int, b: int|
                        0 <= a < i + 1 && 0 <= b < note_tags(ns[a]).len() && #[trigger] note_tags(
                            ns[a],
                        )[b] == t by {
                    if exists|a: int, b: int|
                        0 <= a < i + 1 && 0 <= b < note_tags(ns[a]).len() && #[trigger] note_tags(
                            ns[a],
                        )[b] == t {
                        let (a, b) = choose|a: int, b: int|
                            0 <= a < i + 1 && 0 <= b < note_tags(ns[a]).len() && #[trigger] note_tags(
                                ns[a],
                            )[b] == t;
                        if a == i {
                            assert(note_tags(ns[i as int])[b] == t);
                        }
                    }
                }
            }
            i += 1;
        }
        proof {
            assert forall|t: Seq<char>| #[trigger] counts_view(out@).contains(t) <==> has_tag(ns, t) by {
                if has_tag(ns, t) {
                    let (a, b) = choose|a: int, b: int|
                        0 <= a < ns.len() && 0 <= b < note_tags(ns[a]).len() && #[trigger] note_tags(
                            ns[a],
                        )[b] == t;
                    assert(note_tags(ns[a])[b] == t);
                }
            }
        }
        out
    }

    /// One more occurrence of tag `x`, the `j`th tag of note `i`, counted.
    fn count_tag(&self, out: &mut Vec<(String, usize)>, x: &String, Ghost(i): Ghost<int>, Ghost(j): Ghost<int>)
        requires
            0 <= i < self.notes@.len(),
            0 <= j < note_tags(self.notes@[i]).len(),
            x@ == note_tags(self.notes@[i])[j],
            tag_entries(self.notes@, i + 1) <= usize::MAX,
            strictly_sorted(counts_view(old(out)@)),
            forall|t: Seq<char>|
                #[trigger] counts_view(old(out)@).contains(t) <==> (exists|a: int, b: int|
                    0 <= a < i && 0 <= b < note_tags(self.notes@[a]).len() && #[trigger] note_tags(
                        self.notes@[a],
                    )[b] == t) || (exists|b: int|
                    0 <= b < j && #[trigger] note_tags(self.notes@[i])[b] == t),
            forall|m: int|
                0 <= m < old(out)@.len() ==> (#[trigger] old(out)@[m]).1 == tag_count(
                    self.notes@,
                    old(out)@[m].0@,
                    i,
                ) + occurrences(note_tags(self.notes@[i]).subrange(0, j), old(out)@[m].0@),
        ensures
            strictly_sorted(counts_view(final(out)@)),
            forall|t: Seq<char>|
                #[trigger] counts_view(final(out)@).contains(t) <==> (exists|a: int, b: int|
                    0 <= a < i && 0 <= b < note_tags(self.notes@[a]).len() && #[trigger] note_tags(
                        self.notes@[a],
                    )[b] == t) || (exists|b: int|
                    0 <= b < j + 1 && #[trigger] note_tags(self.notes@[i])[b] == t),
            forall|m: int|
                0 <= m < final(out)@.len() ==> (#[trigger] final(out)@[m]).1 == tag_count(
                    self.notes@,
                    final(out)@[m].0@,
                    i,
                ) + occurrences(note_tags(self.notes@[i]).subrange(0, j + 1), final(out)@[m].0@),
    {
        let ghost ns = self.notes@;
        let ghost tg = note_tags(ns[i]);
        let ghost before = out@;
        let ghost cv = counts_view(out@);
        proof {
            assert(tg.subrange(0, j + 1).drop_last() =~= tg.subrange(0, j));
            assert(tg.subrange(0, j + 1).last() == x@);
            lemma_tag_count(ns, x@, i);
            lemma_occurrences(tg.subrange(0, j), x@);
            lemma_tag_entries_mono(ns, i, i + 1);
        }
        let mut k: usize = 0;
        while k < out.len() && crate::sorting::str_lt(&out[k].0, x)
            invariant
                k <= out@.len(),
                out@ == before,
                cv == counts_view(out@),
                forall|m: int| 0 <= m < k ==> seq_lt(#[trigger] cv[m], x@),
            decreases out@.len() - k,
        {
            assert(cv[k as int] == out@[k as int].0@);
            k += 1;
        }
        let found = k < out.len() && out[k].0 == *x;
        if found {
            let n = out[k].1;
            proof {
                assert(cv[k as int] == x@);
                assert(n == tag_count(ns, x@, i) + occurrences(tg.subrange(0, j), x@));
                assert(n < usize::MAX);
            }
            let key = copy_string(&out[k].0);
            out.set(k, (key, n + 1));
            proof {
                assert(counts_view(out@) =~= cv);
                assert forall|m: int| 0 <= m < out@.len() && m != k implies (#[trigger] out@[m]).1
                    == tag_count(ns, out@[m].0@, i) + occurrences(tg.subrange(0, j + 1), out@[m].0@) by {
                    assert(out@[m] == before[m]);
                    lemma_lt_irreflexive(x@);
                    if m < k {
                        assert(seq_lt(cv[m], x@));
                    } else {
                        assert(seq_lt(cv[k as int], cv[m]));
                    }
                }
                assert forall|t: Seq<char>|
                    #[trigger] counts_view(out@).contains(t) <==> (exists|a: int, b: int|
                        0 <= a < i && 0 <= b < note_tags(ns[a]).len() && #[trigger] note_tags(
                            ns[a],
                        )[b] == t) || (exists|b: int|
                        0 <= b < j + 1 && #[trigger] note_tags(ns[i])[b] == t) by {
                    if exists|b: int| 0 <= b < j + 1 && #[trigger] note_tags(ns[i])[b] == t {
                        let b = choose|b: int| 0 <= b < j + 1 && #[trigger] note_tags(ns[i])[b] == t;
                        if b == j {
                            assert(cv[k as int] == t);
                        } else {
                            assert(note_tags(ns[i])[b] == t);
                        }
                    }
                }
            }
        } else {
            proof {
                if k < out@.len() {
                    lemma_lt_trichotomy(cv[k as int], x@);
                    assert(cv[k as int] == out@[k as int].0@);
                }
                if cv.contains(x@) {
                    let m = choose|m: int| 0 <= m < cv.len() && #[trigger] cv[m] == x@;
                    lemma_lt_irreflexive(x@);
                    if m > k {
                        lemma_lt_transitive(x@, cv[k as int], cv[m]);
                    }
                }
                if tag_count(ns, x@, i) > 0 {
                    let (a, b) = choose|a: int, b: int|
                        0 <= a < i && 0 <= b < note_tags(ns[a]).len() && #[trigger] note_tags(ns[a])[b]
                            == x@;
                    assert(note_tags(ns[a])[b] == x@);
                }
                if occurrences(tg.subrange(0, j), x@) > 0 {
                    let b = choose|b: int| 0 <= b < tg.subrange(0, j).len() && #[trigger] tg.subrange(0, j)[b] == x@;
                    assert(note_tags(ns[i])[b] == x@);
                }
            }
            let key = copy_string(x);
            out.insert(k, (key, 1));
            proof {
                let nv = counts_view(out@);
                assert(nv =~= cv.insert(k as int, x@));
                assert forall|a: int, b: int| 0 <= a < b < nv.len() implies seq_lt(
                    #[trigger] nv[a],
                    #[trigger] nv[b],
                ) by {
                    if b < k {
                    } else if a < k && b == k {
                    } else if a < k && b > k {
                        if b - 1 > k {
                            lemma_lt_transitive(x@, cv[k as int], cv[b - 1]);
                        }
                        lemma_lt_transitive(nv[a], x@, nv[b]);
                    } else if a == k {
                        if b > k + 1 {
                            lemma_lt_transitive(x@, cv[k as int], nv[b]);
                        }
                    } else {
                    }
                }
                assert forall|m: int| 0 <= m < out@.len() implies (#[trigger] out@[m]).1
                    == tag_count(ns, out@[m].0@, i) + occurrences(tg.subrange(0, j + 1), out@[m].0@) by {
                    lemma_lt_irreflexive(x@);
                    if m < k {
                        assert(out@[m] == before[m]);
                        assert(seq_lt(cv[m], x@));
                    } else if m > k {
                        assert(out@[m] == before[m - 1]);
                        if m - 1 > k {
                            lemma_lt_transitive(x@, cv[k as int], cv[m - 1]);
                        }
                    }
                }
                assert forall|t: Seq<char>|
                    #[trigger] nv.contains(t) <==> (exists|a: int, b: int|
                        0 <= a < i && 0 <= b < note_tags(ns[a]).len() && #[trigger] note_tags(
                            ns[a],
                        )[b] == t) || (exists|b: int|
                        0 <= b < j + 1 && #[trigger] note_tags(ns[i])[b] == t) by {
                    if nv.contains(t) {
                        let m = choose|m: int| 0 <= m < nv.len() && #[trigger] nv[m] == t;
                        if m < k {
                            assert(cv[m] == t);
                            assert(cv.contains(t));
                        } else if m > k {
                            assert(cv[m - 1] == t);
                            assert(cv.contains(t));
                        }
                    }
                    if cv.contains(t) {
                        let m = choose|m: int| 0 <= m < cv.len() && #[trigger] cv[m] == t;
                        if m < k {
                            assert(nv[m] == t);
                        } else {
                            assert(nv[m + 1] == t);
                        }
                    }
                    if exists|b: int| 0 <= b < j + 1 && #[trigger] note_tags(ns[i])[b] == t {
                        let b = choose|b: int| 0 <= b < j + 1 && #[trigger] note_tags(ns[i])[b] == t;
                        if b == j {
                            assert(nv[k as int] == t);
                        } else {
                            assert(note_tags(ns[i])[b] == t);
                        }
                    }
                }
            }
        }
    }
}

/// A tag matches a needle when, lowercased, it is the needle or nested
/// below it (`x` matches `x/y`).
pub open spec fn tag_matches(t: Seq<char>, needle: Seq<char>) -> bool {
    let lt = lowercase(t);
    lt == needle || (lt.len() >= needle.len() + 1 && lt.subrange(0, needle.len() + 1int) == needle
        + seq!['/'])
}

/// The needle a tag query stands for: without leading `#`s, lowercased.
pub open spec fn tag_needle(tag: Seq<char>) -> Seq<char> {
    lowercase(crate::text::trim_start_char(tag, '#'))
}

pub open spec fn carries_tag(n: IndexedNote, needle: Seq<char>) -> bool {
    exists|j: int| 0 <= j < note_tags(n).len() && tag_matches(#[trigger] note_tags(n)[j], needle)
}

/// The notes `i..` carrying a tag that matches the needle.
pub open spec fn notes_with_tag_from(ns: Seq<IndexedNote>, needle: Seq<char>, i: int) -> Seq<
    NoteMeta,
>
    decreases ns.len() - i,
{
    if i < 0 || i >= ns.len() {
        seq![]
    } else {
        (if carries_tag(ns[i], needle) {
            seq![ns[i].meta]
        } else {
            seq![]
        }) + notes_with_tag_from(ns, needle, i + 1)
    }
}

pub fn tag_matches_exec(t: &String, needle: &[char]) -> (r: bool)
    ensures
        r == tag_matches(t@, needle@),
{
    let lt = to_lower(chars_of(t.as_str()).as_slice());
    if vec_eq(lt.as_slice(), needle) {
        return true;
    }
    if lt.len() < needle.len() || lt.len() - needle.len() < 1 {
        return false;
    }
    let mut prefix = slice_of(needle, 0, needle.len());
    prefix.push('/');
    assert(prefix@ =~= needle@ + seq!['/']);
    let head = slice_of(lt.as_slice(), 0, needle.len() + 1);
    vec_eq(head.as_slice(), prefix.as_slice())
}

impl VaultIndex {
    /// Notes carrying a tag, including nested children (`x` matches `x/y`).
    pub fn notes_with_tag(&self, tag: &str) -> (r: Vec<&NoteMeta>)
        ensures
            r@.map_values(|m: &NoteMeta| *m) == notes_with_tag_from(
                self.notes_view(),
                tag_needle(tag@),
                0,
            ),
    {
        let needle = to_lower(crate::text::trim_start_char_vec(chars_of(tag).as_slice(), '#').as_slice());
        let ghost ns = self.notes@;
        let mut out: Vec<&NoteMeta> = Vec::new();
        let mut i: usize = 0;
        while i < self.notes.len()
            invariant
                i <= ns.len(),
                ns == self.notes@,
                needle@ == tag_needle(tag@),
                out@.map_values(|m: &NoteMeta| *m) + notes_with_tag_from(ns, needle@, i as int)
                    == notes_with_tag_from(ns, needle@, 0),
            decreases ns.len() - i,
        {
            let note = &self.notes[i];
            let ghost before = out@.map_values(|m: &NoteMeta| *m);
            let mut hit = false;
            let mut j: usize = 0;
            while j < note.meta.tags.len()
                invariant
                    j <= note.meta.tags@.len(),
                    note == ns[i as int],
                    hit == exists|b: int|
                        0 <= b < j && tag_matches(#[trigger] note_tags(ns[i as int])[b], needle@),
                decreases note.meta.tags@.len() - j,
            {
                assert(note_tags(ns[i as int])[j as int] == note.meta.tags@[j as int]@);
                if tag_matches_exec(&note.meta.tags[j], needle.as_slice()) {
                    hit = true;
                }
                j += 1;
            }
            if hit {
                out.push(&note.meta);
                assert(out@.map_values(|m: &NoteMeta| *m) =~= before.push(ns[i as int].meta));
            }
            assert(out@.map_values(|m: &NoteMeta| *m) + notes_with_tag_from(ns, needle@, i + 1)
                =~= before + notes_with_tag_from(ns, needle@, i as int));
            i += 1;
        }
        assert(out@.map_values(|m: &NoteMeta| *m) + notes_with_tag_from(ns, needle@, i as int)
            =~= out@.map_values(|m: &NoteMeta| *m));
        out
    }
}

// ---------------------------------------------------------------------------
// rewriting links after a move
// ---------------------------------------------------------------------------

/// Number of notes from `i` on, other than the one at `from`, that answer to
/// `key`.
pub open spec fn other_key_hits(ns: Seq<IndexedNote>, key: Seq<char>, from: Seq<char>, i: int) -> nat
    decreases ns.len() - i,
{
    if i < 0 || i >= ns.len() {
        0
    } else {
        (if is_key(ns[i], key) && path_of(ns[i]) != from {
            1nat
        } else {
            0nat
        }) + other_key_hits(ns, key, from, i + 1)
    }
}

/// What a note moved from `from` to `to` is linked as: its bare name when no
/// other note answers to that name, else its full path (both without the
/// extension).
pub open spec fn replacement_for(ns: Seq<IndexedNote>, from: Seq<char>, to: Seq<char>) -> Seq<char> {
    let new_stem = strip_note_ext_spec(file_name(to));
    if other_key_hits(ns, lowercase(new_stem), from, 0) > 0 {
        strip_note_ext_spec(to)
    } else {
        new_stem
    }
}

proof fn lemma_other_key_hits_zero(ns: Seq<IndexedNote>, key: Seq<char>, from: Seq<char>, i: int)
    requires
        0 <= i,
        other_key_hits(ns, key, from, i) == 0,
    ensures
        forall|j: int| i <= j < ns.len() && path_of(#[trigger] ns[j]) != from ==> !is_key(ns[j], key),
    decreases ns.len() - i,
{
    if i < ns.len() {
        lemma_other_key_hits_zero(ns, key, from, i + 1);
    }
}

/// A moved note is relinked by its bare name only when no other note
/// answers to that name; otherwise by its full path.
pub proof fn lemma_bare_name_unambiguous(ns: Seq<IndexedNote>, from: Seq<char>, to: Seq<char>)
    ensures
        ({
            let stem = strip_note_ext_spec(file_name(to));
            ||| replacement_for(ns, from, to) == strip_note_ext_spec(to)
                && exists|j: int| 0 <= j < ns.len() && path_of(#[trigger] ns[j]) != from && is_key(ns[j], lowercase(stem))
            ||| replacement_for(ns, from, to) == stem && forall|j: int|
                0 <= j < ns.len() && path_of(#[trigger] ns[j]) != from ==> !is_key(ns[j], lowercase(stem))
        }),
{
    let stem = strip_note_ext_spec(file_name(to));
    let key = lowercase(stem);
    if other_key_hits(ns, key, from, 0) == 0 {
        lemma_other_key_hits_zero(ns, key, from, 0);
    } else {
        lemma_other_key_hits_some(ns, key, from, 0);
    }
}

proof fn lemma_other_key_hits_some(ns: Seq<IndexedNote>, key: Seq<char>, from: Seq<char>, i: int)
    requires
        0 <= i,
        other_key_hits(ns, key, from, i) > 0,
    ensures
        exists|j: int| i <= j < ns.len() && path_of(#[trigger] ns[j]) != from && is_key(ns[j], key),
    decreases ns.len() - i,
{
    if i < ns.len() {
        if is_key(ns[i], key) && path_of(ns[i]) != from {
            assert(path_of(ns[i]) != from);
        } else {
            lemma_other_key_hits_some(ns, key, from, i + 1);
            let j = choose|j: int| i + 1 <= j < ns.len() && path_of(#[trigger] ns[j]) != from && is_key(ns[j], key);
            assert(path_of(ns[j]) != from);
        }
    }
}

/// A link target of note `i` that resolved to `from`.
pub open spec fn stale_target(ns: Seq<IndexedNote>, from: Seq<char>, i: int, t: Seq<char>) -> bool {
    exists|k: int|
        0 <= k < ns[i].links@.len() && (#[trigger] ns[i].links@[k])@.target == t && resolve_spec(
            ns,
            path_of(ns[i]),
            t,
        ) == Some(from)
}

/// The distinct stale targets of note `i`, in increasing order.
pub open spec fn stale_targets(ns: Seq<IndexedNote>, from: Seq<char>, i: int) -> Seq<Seq<char>> {
    choose|s: Seq<Seq<char>>|
        strictly_sorted(s) && forall|t: Seq<char>| #[trigger] s.contains(t) <==> stale_target(ns, from, i, t)
}

/// `body` with each of the targets `st[k..]` retargeted in turn, and whether
/// any rewrite touched a link.
pub open spec fn apply_rewrites(body: Seq<char>, st: Seq<Seq<char>>, k: int, repl: Seq<char>) -> (
    Seq<char>,
    bool,
)
    decreases st.len() - k,
{
    if k < 0 || k >= st.len() {
        (body, false)
    } else {
        let r = crate::paths::rewrite_body(body, st[k], repl);
        let next = if r.1 {
            r.0
        } else {
            body
        };
        let rest = apply_rewrites(next, st, k + 1, repl);
        (rest.0, r.1 || rest.1)
    }
}

/// The notes from `i` on whose text changes, with their new text.
pub open spec fn rewritten_from(ns: Seq<IndexedNote>, from: Seq<char>, repl: Seq<char>, i: int) -> Seq<
    (Seq<char>, Seq<char>),
>
    decreases ns.len() - i,
{
    if i < 0 || i >= ns.len() {
        seq![]
    } else {
        let here = if path_of(ns[i]) == from {
            seq![]
        } else {
            let st = stale_targets(ns, from, i);
            let a = apply_rewrites(ns[i].body@, st, 0, repl);
            if st.len() > 0 && a.1 {
                seq![(path_of(ns[i]), crate::frontmatter::compose_spec(crate::yaml::map_view(ns[i].frontmatter@), a.0))]
            } else {
                seq![]
            }
        };
        here + rewritten_from(ns, from, repl, i + 1)
    }
}

proof fn lemma_rewritten_from_spares(ns: Seq<IndexedNote>, from: Seq<char>, repl: Seq<char>, p: Seq<char>, i: int)
    requires
        0 <= i,
        forall|j: int, k: int|
            0 <= j < ns.len() && path_of(ns[j]) == p && 0 <= k < ns[j].links@.len() ==> resolve_spec(
                ns,
                p,
                (#[trigger] ns[j].links@[k])@.target,
            ) != Some(from),
    ensures
        forall|e: int|
            0 <= e < rewritten_from(ns, from, repl, i).len() ==> (#[trigger] rewritten_from(ns, from, repl, i)[e]).0 != p,
    decreases ns.len() - i,
{
    if i < ns.len() {
        lemma_rewritten_from_spares(ns, from, repl, p, i + 1);
        let rest = rewritten_from(ns, from, repl, i + 1);
        let here = if path_of(ns[i]) == from {
            seq![]
        } else {
            let st = stale_targets(ns, from, i);
            let a = apply_rewrites(ns[i].body@, st, 0, repl);
            if st.len() > 0 && a.1 {
                seq![(path_of(ns[i]), crate::frontmatter::compose_spec(crate::yaml::map_view(ns[i].frontmatter@), a.0))]
            } else {
                seq![]
            }
        };
        assert(rewritten_from(ns, from, repl, i) == here + rest);
        if path_of(ns[i]) == p && path_of(ns[i]) != from {
            let empty = Seq::<Seq<char>>::empty();
            assert forall|t: Seq<char>| #[trigger] empty.contains(t) <==> stale_target(ns, from, i, t) by {
                if stale_target(ns, from, i, t) {
                    let k = choose|k: int|
                        0 <= k < ns[i].links@.len() && (#[trigger] ns[i].links@[k])@.target == t && resolve_spec(
                            ns,
                            path_of(ns[i]),
                            t,
                        ) == Some(from);
                    assert(resolve_spec(ns, p, ns[i].links@[k]@.target) != Some(from));
                }
            }
            assert(crate::sorting::strictly_sorted(empty));
            let st = stale_targets(ns, from, i);
            if st.len() > 0 {
                assert(st.contains(st[0]));
                assert(stale_target(ns, from, i, st[0]));
                assert(empty.contains(st[0]));
            }
            assert(here =~= Seq::<(Seq<char>, Seq<char>)>::empty());
        }
        assert forall|e: int| 0 <= e < (here + rest).len() implies (#[trigger] (here + rest)[e]).0 != p by {
            if e >= here.len() {
                assert((here + rest)[e] == rest[e - here.len()]);
            }
        }
    }
}

/// Only notes that linked to the moved note are rewritten: when no link of
/// any note at path `p` resolved to `from`, nothing the rewrite returns is
/// for `p`.
pub proof fn lemma_rewrite_spares_unlinked(ns: Seq<IndexedNote>, from: Seq<char>, repl: Seq<char>, p: Seq<char>)
    requires
        forall|j: int, k: int|
            0 <= j < ns.len() && path_of(ns[j]) == p && 0 <= k < ns[j].links@.len() ==> resolve_spec(
                ns,
                p,
                (#[trigger] ns[j].links@[k])@.target,
            ) != Some(from),
    ensures
        forall|e: int|
            0 <= e < rewritten_from(ns, from, repl, 0).len() ==> (#[trigger] rewritten_from(ns, from, repl, 0)[e]).0 != p,
{
    lemma_rewritten_from_spares(ns, from, repl, p, 0);
}


pub open spec fn pairs_view(v: Seq<(String, String)>) -> Seq<(Seq<char>, Seq<char>)> {
    v.map_values(|p: (String, String)| (p.0@, p.1@))
}

impl VaultIndex {
    fn other_key_hits_exec(&self, key: &[char], from: &[char]) -> (r: usize)
        ensures
            r == other_key_hits(self.notes@, key@, from@, 0),
    {
        let mut n: usize = 0;
        let mut i: usize = 0;
        while i < self.notes.len()
            invariant
                i <= self.notes@.len(),
                n + other_key_hits(self.notes@, key@, from@, i as int) == other_key_hits(
                    self.notes@,
                    key@,
                    from@,
                    0,
                ),
                n <= i,
            decreases self.notes@.len() - i,
        {
            if self.keys_contain(i, key) {
                let p = chars_of(self.notes[i].meta.path.as_str());
                if !vec_eq(p.as_slice(), from) {
                    n += 1;
                }
            }
            i += 1;
        }
        n
    }

    fn replacement(&self, from: &[char], to: &[char]) -> (r: Vec<char>)
        ensures
            r@ == replacement_for(self.notes@, from@, to@),
    {
        let a = crate::paths::after_last_exec(to, '/');
        let name = slice_of(to, a, to.len());
        assert(name@ == file_name(to@));
        let new_stem = strip_note_ext(name.as_slice());
        let key = to_lower(new_stem.as_slice());
        if self.other_key_hits_exec(key.as_slice(), from) > 0 {
            strip_note_ext(to)
        } else {
            new_stem
        }
    }

    fn stale_of(&self, i: usize, from: &[char]) -> (r: Vec<String>)
        requires
            i < self.notes@.len(),
        ensures
            strings_view(r@) == stale_targets(self.notes@, from@, i as int),
    {
        let note = &self.notes[i];
        let np = chars_of(note.meta.path.as_str());
        let ghost ns = self.notes@;
        let mut all: Vec<String> = Vec::new();
        let mut k: usize = 0;
        while k < note.links.len()
            invariant
                k <= note.links@.len(),
                i < ns.len(),
                ns == self.notes@,
                note == ns[i as int],
                np@ == path_of(ns[i as int]),
                forall|t: Seq<char>|
                    #[trigger] strings_view(all@).contains(t) <==> exists|m: int|
                        0 <= m < k && (#[trigger] ns[i as int].links@[m])@.target == t && resolve_spec(
                            ns,
                            path_of(ns[i as int]),
                            t,
                        ) == Some(from@),
            decreases note.links@.len() - k,
        {
            let link = &note.links[k];
            let tc = chars_of(link.target.as_str());
            let ghost before = strings_view(all@);
            let hit = match self.resolve_chars(np.as_slice(), tc.as_slice()) {
                Some(h) => vec_eq(h.as_slice(), from),
                None => false,
            };
            if hit {
                all.push(copy_string(&link.target));
            }
            proof {
                let nv = strings_view(all@);
                if hit {
                    assert(nv =~= before.push(tc@));
                } else {
                    assert(nv =~= before);
                }
                assert forall|t: Seq<char>|
                    #[trigger] nv.contains(t) <==> exists|m: int|
                        0 <= m < k + 1 && (#[trigger] ns[i as int].links@[m])@.target == t
                            && resolve_spec(ns, path_of(ns[i as int]), t) == Some(from@) by {
                    if nv.contains(t) {
                        let x = choose|x: int| 0 <= x < nv.len() && #[trigger] nv[x] == t;
                        if x < before.len() {
                            assert(before[x] == t);
                            assert(before.contains(t));
                        } else {
                            assert(ns[i as int].links@[k as int]@.target == t);
                        }
                    }
                    if before.contains(t) {
                        let x = choose|x: int| 0 <= x < before.len() && #[trigger] before[x] == t;
                        assert(nv[x] == t);
                    }
                    if exists|m: int|
                        0 <= m < k + 1 && (#[trigger] ns[i as int].links@[m])@.target == t
                            && resolve_spec(ns, path_of(ns[i as int]), t) == Some(from@) {
                        let m = choose|m: int|
                            0 <= m < k + 1 && (#[trigger] ns[i as int].links@[m])@.target == t
                                && resolve_spec(ns, path_of(ns[i as int]), t) == Some(from@);
                        if m == k {
                            assert(nv[nv.len() - 1] == t);
                        }
                    }
                }
            }
            k += 1;
        }
        let r = sorted_unique(all);
        proof {
            let rv = strings_view(r@);
            assert forall|t: Seq<char>| #[trigger] rv.contains(t) <==> stale_target(ns, from@, i as int, t) by {
                if stale_target(ns, from@, i as int, t) {
                    let m = choose|m: int|
                        0 <= m < ns[i as int].links@.len() && (#[trigger] ns[i as int].links@[m])@.target
                            == t && resolve_spec(ns, path_of(ns[i as int]), t) == Some(from@);
                    assert(strings_view(all@).contains(t));
                }
            }
            let c = stale_targets(ns, from@, i as int);
            assert(strictly_sorted(c) && forall|t: Seq<char>| #[trigger] c.contains(t) <==> stale_target(ns, from@, i as int, t));
            crate::sorting::lemma_sorted_unique_eq(rv, c);
        }
        r
    }

    /// Rewrite links across the vault after a note moved.
    ///
    /// Returns the notes whose text changed along with their new content, so
    /// the caller decides when to write. Only links that actually resolved to
    /// `from` are touched.
    pub fn rewrite_links_for_move(&self, from: &str, to: &str) -> (r: Vec<(String, String)>)
        ensures
            pairs_view(r@) == rewritten_from(
                self.notes_view(),
                from@,
                replacement_for(self.notes_view(), from@, to@),
                0,
            ),
    {
        let fc = chars_of(from);
        let repl = self.replacement(fc.as_slice(), chars_of(to).as_slice());
        let ghost ns = self.notes@;
        let ghost total = rewritten_from(ns, from@, repl@, 0);
        let mut changed: Vec<(String, String)> = Vec::new();
        let mut i: usize = 0;
        while i < self.notes.len()
            invariant
                i <= ns.len(),
                ns == self.notes@,
                fc@ == from@,
                pairs_view(changed@) + rewritten_from(ns, from@, repl@, i as int) == total,
            decreases ns.len() - i,
        {
            let note = &self.notes[i];
            let ghost before = pairs_view(changed@);
            let np = chars_of(note.meta.path.as_str());
            if !vec_eq(np.as_slice(), fc.as_slice()) {
                let stale = self.stale_of(i, fc.as_slice());
                let ghost st = strings_view(stale@);
                if stale.len() > 0 {
                    let mut body = chars_of(note.body.as_str());
                    let mut touched = false;
                    let mut k: usize = 0;
                    while k < stale.len()
                        invariant
                            k <= stale@.len(),
                            st == strings_view(stale@),
                            apply_rewrites(body@, st, k as int, repl@).0 == apply_rewrites(
                                note.body@,
                                st,
                                0,
                                repl@,
                            ).0,
                            (touched || apply_rewrites(body@, st, k as int, repl@).1)
                                == apply_rewrites(note.body@, st, 0, repl@).1,
                        decreases stale@.len() - k,
                    {
                        let t = chars_of(stale[k].as_str());
                        assert(st[k as int] == t@);
                        let (next, hit) = crate::paths::replace_wikilink_target(
                            body.as_slice(),
                            t.as_slice(),
                            repl.as_slice(),
                        );
                        if hit {
                            body = next;
                            touched = true;
                        }
                        k += 1;
                    }
                    if touched {
                        let content = crate::frontmatter::compose(&note.frontmatter, string_of(body.as_slice()).as_str());
                        changed.push((copy_string(&note.meta.path), content));
                        assert(pairs_view(changed@) =~= before.push((np@, content@)));
                    }
                }
            }
            assert(pairs_view(changed@) + rewritten_from(ns, from@, repl@, i + 1) =~= before
                + rewritten_from(ns, from@, repl@, i as int));
            i += 1;
        }
        assert(pairs_view(changed@) + rewritten_from(ns, from@, repl@, i as int) =~= pairs_view(
            changed@,
        ));
        changed
    }
}


// ---------------------------------------------------------------------------
// rewriting links after several moves
// ---------------------------------------------------------------------------

/// A note of an index is what parsing `content` at `path` gives.
pub open spec fn parsed_from(n: IndexedNote, path: Seq<char>, content: Seq<char>) -> bool {
    let fm = crate::note::note_frontmatter(content);
    let sc = crate::links::spec_scan(crate::frontmatter::split_spec(content).1);
    &&& n.meta.path@ == path
    &&& crate::yaml::map_view(n.frontmatter@) == fm
    &&& n.body@ == crate::frontmatter::split_spec(content).1
    &&& crate::links::links_view(n.links@) == sc.links
    &&& crate::links::headings_view(n.headings@) == sc.headings
    &&& n.meta.title@ == crate::note::title_spec(path, fm, sc)
    &&& strings_view(n.meta.aliases@) == crate::note::string_list_spec(
        crate::yaml::map_get(fm, crate::note::word_aliases()),
    ) + crate::note::string_list_spec(crate::yaml::map_get(fm, crate::note::word_alias()))
    &&& strictly_sorted(strings_view(n.meta.tags@))
    &&& forall|t: Seq<char>| strings_view(n.meta.tags@).contains(t) <==> crate::note::is_note_tag(fm, sc, t)
    &&& n.meta.size == 0
    &&& n.meta.modified is None
}

/// An index built from these note texts, one note per text, in order.
pub open spec fn indexes(ns: Seq<IndexedNote>, texts: Seq<(Seq<char>, Seq<char>)>) -> bool {
    ns.len() == texts.len() && forall|i: int|
        0 <= i < ns.len() ==> parsed_from(#[trigger] ns[i], texts[i].0, texts[i].1)
}

/// Each note's path and its full text, frontmatter recomposed.
pub open spec fn texts_of(ns: Seq<IndexedNote>) -> Seq<(Seq<char>, Seq<char>)> {
    Seq::new(
        ns.len(),
        |i: int| (path_of(ns[i]), crate::frontmatter::compose_spec(crate::yaml::map_view(ns[i].frontmatter@), ns[i].body@)),
    )
}

/// Position of the first text at path `p` from `i` on.
pub open spec fn text_at(texts: Seq<(Seq<char>, Seq<char>)>, p: Seq<char>, i: int) -> Option<int>
    decreases texts.len() - i,
{
    if i < 0 || i >= texts.len() {
        None
    } else if texts[i].0 == p {
        Some(i)
    } else {
        text_at(texts, p, i + 1)
    }
}

/// The texts with the first one at `pc.0` given the text `pc.1`.
pub open spec fn set_text(texts: Seq<(Seq<char>, Seq<char>)>, pc: (Seq<char>, Seq<char>)) -> Seq<(Seq<char>, Seq<char>)> {
    match text_at(texts, pc.0, 0) {
        Some(i) => texts.update(i, pc),
        None => texts,
    }
}

/// Each new text put in place, in turn.
pub open spec fn set_texts(texts: Seq<(Seq<char>, Seq<char>)>, pairs: Seq<(Seq<char>, Seq<char>)>) -> Seq<(Seq<char>, Seq<char>)>
    decreases pairs.len(),
{
    if pairs.len() == 0 {
        texts
    } else {
        set_text(set_texts(texts, pairs.drop_last()), pairs.last())
    }
}

/// The paths of `pairs` added, in turn, to those in `changed` that are new.
pub open spec fn add_paths(changed: Seq<Seq<char>>, pairs: Seq<(Seq<char>, Seq<char>)>) -> Seq<Seq<char>>
    decreases pairs.len(),
{
    if pairs.len() == 0 {
        changed
    } else {
        let c = add_paths(changed, pairs.drop_last());
        if c.contains(pairs.last().0) {
            c
        } else {
            c.push(pairs.last().0)
        }
    }
}

/// The texts and the changed paths after the moves `moves[..nss.len()]`, the
/// `k`th worked out on `nss[k]`, an index of the texts the earlier moves left.
pub open spec fn run_moves(
    texts: Seq<(Seq<char>, Seq<char>)>,
    nss: Seq<Seq<IndexedNote>>,
    moves: Seq<(Seq<char>, Seq<char>)>,
) -> (Seq<(Seq<char>, Seq<char>)>, Seq<Seq<char>>)
    decreases nss.len(),
{
    if nss.len() == 0 {
        (texts, seq![])
    } else {
        let before = run_moves(texts, nss.drop_last(), moves);
        let ns = nss.last();
        let mv = moves[nss.len() - 1];
        let pairs = rewritten_from(ns, mv.0, replacement_for(ns, mv.0, mv.1), 0);
        (set_texts(before.0, pairs), add_paths(before.1, pairs))
    }
}

/// Each index of a run is built from the texts the moves before it left.
pub open spec fn valid_run(
    texts: Seq<(Seq<char>, Seq<char>)>,
    nss: Seq<Seq<IndexedNote>>,
    moves: Seq<(Seq<char>, Seq<char>)>,
) -> bool
    decreases nss.len(),
{
    nss.len() == 0 || (valid_run(texts, nss.drop_last(), moves) && indexes(
        nss.last(),
        run_moves(texts, nss.drop_last(), moves).0,
    ))
}

/// The texts whose path is among `changed`, in order.
pub open spec fn changed_texts(texts: Seq<(Seq<char>, Seq<char>)>, changed: Seq<Seq<char>>) -> Seq<(Seq<char>, Seq<char>)>
    decreases texts.len(),
{
    if texts.len() == 0 {
        seq![]
    } else {
        changed_texts(texts.drop_last(), changed) + if changed.contains(texts.last().0) {
            seq![texts.last()]
        } else {
            seq![]
        }
    }
}

fn text_position(texts: &Vec<(String, String)>, p: &str) -> (r: Option<usize>)
    ensures
        crate::text::opt_int(r) == text_at(pairs_view(texts@), p@, 0),
        r matches Some(i) ==> i < texts@.len(),
{
    let pc = chars_of(p);
    let ghost tv = pairs_view(texts@);
    let mut i: usize = 0;
    while i < texts.len()
        invariant
            i <= texts@.len(),
            tv == pairs_view(texts@),
            pc@ == p@,
            text_at(tv, p@, i as int) == text_at(tv, p@, 0),
        decreases texts@.len() - i,
    {
        let q = chars_of(texts[i].0.as_str());
        if vec_eq(q.as_slice(), pc.as_slice()) {
            return Some(i);
        }
        i += 1;
    }
    None
}

fn holds_path(changed: &Vec<String>, p: &str) -> (r: bool)
    ensures
        r == strings_view(changed@).contains(p@),
{
    let pc = chars_of(p);
    let mut i: usize = 0;
    while i < changed.len()
        invariant
            i <= changed@.len(),
            pc@ == p@,
            forall|m: int| 0 <= m < i ==> strings_view(changed@)[m] != p@,
        decreases changed@.len() - i,
    {
        let q = chars_of(changed[i].as_str());
        if vec_eq(q.as_slice(), pc.as_slice()) {
            assert(strings_view(changed@)[i as int] == p@);
            return true;
        }
        i += 1;
    }
    false
}

impl VaultIndex {
    fn index_texts(texts: &Vec<(String, String)>) -> (r: VaultIndex)
        ensures
            indexes(r.notes_view(), pairs_view(texts@)),
    {
        let mut notes: Vec<Note> = Vec::new();
        let mut i: usize = 0;
        while i < texts.len()
            invariant
                i <= texts@.len(),
                notes@.len() == i,
                forall|m: int|
                    0 <= m < i ==> {
                        let n = #[trigger] notes@[m];
                        &&& n.meta.path@ == texts@[m].0@
                        &&& crate::yaml::map_view(n.frontmatter@) == crate::note::note_frontmatter(texts@[m].1@)
                        &&& n.body@ == crate::frontmatter::split_spec(texts@[m].1@).1
                        &&& n.scan@ == crate::links::spec_scan(n.body@)
                        &&& n.meta.title@ == crate::note::title_spec(
                            n.meta.path@,
                            crate::yaml::map_view(n.frontmatter@),
                            n.scan@,
                        )
                        &&& strings_view(n.meta.aliases@) == crate::note::string_list_spec(
                            crate::yaml::map_get(crate::yaml::map_view(n.frontmatter@), crate::note::word_aliases()),
                        ) + crate::note::string_list_spec(
                            crate::yaml::map_get(crate::yaml::map_view(n.frontmatter@), crate::note::word_alias()),
                        )
                        &&& strictly_sorted(strings_view(n.meta.tags@))
                        &&& forall|t: Seq<char>|
                            strings_view(n.meta.tags@).contains(t) <==> crate::note::is_note_tag(
                                crate::yaml::map_view(n.frontmatter@),
                                n.scan@,
                                t,
                            )
                        &&& n.meta.size == 0
                        &&& n.meta.modified is None
                    },
            decreases texts@.len() - i,
        {
            let n = Note::parse(texts[i].0.as_str(), texts[i].1.as_str(), 0, None);
            notes.push(n);
            i += 1;
        }
        let ghost nv = notes@;
        let r = VaultIndex::build(notes);
        proof {
            let ns = r.notes_view();
            let tv = pairs_view(texts@);
            assert forall|m: int| 0 <= m < ns.len() implies parsed_from(#[trigger] ns[m], tv[m].0, tv[m].1) by {
                let n = nv[m];
                assert(ns[m].meta == n.meta);
                assert(ns[m].frontmatter == n.frontmatter);
                assert(ns[m].body == n.body);
                assert(ns[m].links == n.scan.links);
                assert(ns[m].headings == n.scan.headings);
                assert(tv[m] == (texts@[m].0@, texts@[m].1@));
            }
        }
        r
    }

    fn note_texts(&self) -> (r: Vec<(String, String)>)
        ensures
            pairs_view(r@) == texts_of(self.notes_view()),
    {
        let mut out: Vec<(String, String)> = Vec::new();
        let mut i: usize = 0;
        while i < self.notes.len()
            invariant
                i <= self.notes@.len(),
                pairs_view(out@) =~= texts_of(self.notes_view()).subrange(0, i as int),
            decreases self.notes@.len() - i,
        {
            let note = &self.notes[i];
            let content = crate::frontmatter::compose(&note.frontmatter, note.body.as_str());
            let ghost before = pairs_view(out@);
            out.push((copy_string(&note.meta.path), content));
            proof {
                let t = texts_of(self.notes_view());
                assert(self.notes_view()[i as int] == *note);
                assert(pairs_view(out@) =~= before.push(t[i as int]));
                assert(t.subrange(0, i + 1) =~= t.subrange(0, i as int).push(t[i as int]));
            }
            i += 1;
        }
        out
    }

    /// Rewrite links across the vault after several notes moved: each move's
    /// rewrites are worked out on an index of the texts the earlier moves
    /// left. Returns each note whose text changed, with its final text, in
    /// the order of the index.
    pub fn rewrite_links_for_moves(&self, moves: &Vec<(String, String)>) -> (r: Vec<(String, String)>)
        ensures
            exists|nss: Seq<Seq<IndexedNote>>|
                nss.len() == moves@.len() && valid_run(texts_of(self.notes_view()), nss, pairs_view(moves@))
                    && pairs_view(r@) == changed_texts(
                    run_moves(texts_of(self.notes_view()), nss, pairs_view(moves@)).0,
                    run_moves(texts_of(self.notes_view()), nss, pairs_view(moves@)).1,
                ),
    {
        let ghost t0 = texts_of(self.notes_view());
        let ghost mv = pairs_view(moves@);
        let mut texts = self.note_texts();
        let mut changed: Vec<String> = Vec::new();
        let ghost mut nss: Seq<Seq<IndexedNote>> = seq![];
        let mut k: usize = 0;
        while k < moves.len()
            invariant
                k <= moves@.len(),
                mv == pairs_view(moves@),
                nss.len() == k,
                valid_run(t0, nss, mv),
                (pairs_view(texts@), strings_view(changed@)) == run_moves(t0, nss, mv),
            decreases moves@.len() - k,
        {
            let current = VaultIndex::index_texts(&texts);
            let ghost ns = current.notes_view();
            let pairs = current.rewrite_links_for_move(moves[k].0.as_str(), moves[k].1.as_str());
            let ghost pv = pairs_view(pairs@);
            assert(mv[k as int] == (moves@[k as int].0@, moves@[k as int].1@));
            let ghost base_t = pairs_view(texts@);
            let ghost base_c = strings_view(changed@);
            let mut j: usize = 0;
            while j < pairs.len()
                invariant
                    j <= pairs@.len(),
                    pv == pairs_view(pairs@),
                    pairs_view(texts@) == set_texts(base_t, pv.subrange(0, j as int)),
                    strings_view(changed@) == add_paths(base_c, pv.subrange(0, j as int)),
                decreases pairs@.len() - j,
            {
                let ghost sub = pv.subrange(0, j + 1);
                assert(sub.drop_last() =~= pv.subrange(0, j as int));
                assert(sub.last() == (pairs@[j as int].0@, pairs@[j as int].1@));
                match text_position(&texts, pairs[j].0.as_str()) {
                    Some(i) => {
                        let ghost tv = pairs_view(texts@);
                        texts.set(i, (copy_string(&pairs[j].0), copy_string(&pairs[j].1)));
                        assert(pairs_view(texts@) =~= tv.update(i as int, sub.last()));
                    },
                    None => {},
                }
                if !holds_path(&changed, pairs[j].0.as_str()) {
                    let ghost cv = strings_view(changed@);
                    changed.push(copy_string(&pairs[j].0));
                    assert(strings_view(changed@) =~= cv.push(pairs@[j as int].0@));
                }
                j += 1;
            }
            assert(pv.subrange(0, j as int) =~= pv);
            proof {
                let nn = nss.push(ns);
                assert(nn.drop_last() =~= nss);
                assert(nn.last() == ns);
                nss = nn;
            }
            k += 1;
        }
        let ghost fin = run_moves(t0, nss, mv);
        let mut out: Vec<(String, String)> = Vec::new();
        let mut i: usize = 0;
        while i < texts.len()
            invariant
                i <= texts@.len(),
                (pairs_view(texts@), strings_view(changed@)) == fin,
                pairs_view(out@) == changed_texts(pairs_view(texts@).subrange(0, i as int), fin.1),
            decreases texts@.len() - i,
        {
            let ghost sub = pairs_view(texts@).subrange(0, i + 1);
            assert(sub.drop_last() =~= pairs_view(texts@).subrange(0, i as int));
            if holds_path(&changed, texts[i].0.as_str()) {
                let ghost ov = pairs_view(out@);
                out.push((copy_string(&texts[i].0), copy_string(&texts[i].1)));
                assert(pairs_view(out@) =~= ov.push(sub.last()));
            } else {
                assert(pairs_view(out@) =~= pairs_view(out@) + Seq::<(Seq<char>, Seq<char>)>::empty());
            }
            i += 1;
        }
        assert(pairs_view(texts@).subrange(0, i as int) =~= pairs_view(texts@));
        out
    }
}

} // verus!
