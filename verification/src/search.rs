//! Full-text search over an indexed vault.
//!
//! Deliberately simple: case-insensitive term matching with a score that
//! favours titles, tags and paths over body text, plus a snippet per hit. No
//! stemming, no ranking model — a vault is small enough that predictability
//! beats cleverness, and quoting a phrase finds that phrase.

use vstd::prelude::*;

use crate::index::{IndexedNote, VaultIndex, carries_tag, copy_string, path_of, tag_needle};
use crate::links::strings_view;
use crate::text::{
    chars_of, contains, contains_seq, is_whitespace, is_ws, lines, lowercase, occurs_at,
    occurs_at_exec, seq_lt, slice_of, split_lines, string_of, to_lower, trim, trim_end_char,
    trim_end_char_vec, trim_start_char, trim_start_char_vec, trim_vec, vec_eq,
};

verus! {

pub struct SearchHit {
    pub path: String,
    pub title: String,
    pub score: u32,
    /// Matching lines with 1-based line numbers, capped per note.
    pub matches: Vec<SearchMatch>,
}

pub struct SearchMatch {
    pub line: usize,
    pub text: String,
}

pub struct SearchOptions {
    /// Maximum notes returned.
    pub limit: usize,
    /// Maximum matching lines shown per note.
    pub max_matches_per_note: usize,
    /// Restrict to notes whose path starts with this prefix.
    pub folder: Option<String>,
    /// Restrict to notes carrying this tag (nested tags included).
    pub tag: Option<String>,
}

impl Default for SearchOptions {
    fn default() -> (r: SearchOptions)
        ensures
            r.limit == 25,
            r.max_matches_per_note == 3,
            r.folder is None,
            r.tag is None,
    {
        SearchOptions { limit: 25, max_matches_per_note: 3, folder: None, tag: None }
    }
}

pub struct SpecMatch {
    pub line: nat,
    pub text: Seq<char>,
}

pub struct SpecHit {
    pub path: Seq<char>,
    pub title: Seq<char>,
    pub score: int,
    pub matches: Seq<SpecMatch>,
}

pub open spec fn match_view(m: SearchMatch) -> SpecMatch {
    SpecMatch { line: m.line as nat, text: m.text@ }
}

pub open spec fn matches_view(v: Seq<SearchMatch>) -> Seq<SpecMatch> {
    v.map_values(|m: SearchMatch| match_view(m))
}

pub open spec fn hit_view(h: SearchHit) -> SpecHit {
    SpecHit { path: h.path@, title: h.title@, score: h.score as int, matches: matches_view(h.matches@) }
}

pub open spec fn hits_view(v: Seq<SearchHit>) -> Seq<SpecHit> {
    v.map_values(|h: SearchHit| hit_view(h))
}

// ---------------------------------------------------------------------------
// query terms
// ---------------------------------------------------------------------------

/// `acc` with the trimmed, lowercased `cur` added when it holds anything.
pub open spec fn flush(acc: Seq<Seq<char>>, cur: Seq<char>) -> Seq<Seq<char>> {
    if trim(cur).len() > 0 {
        acc.push(lowercase(trim(cur)))
    } else {
        acc
    }
}

/// The terms of a query read from `i` on: whitespace separates them except
/// inside `"quotes"`, and a closing quote ends a phrase.
pub open spec fn term_scan(
    q: Seq<char>,
    i: int,
    cur: Seq<char>,
    in_quotes: bool,
    acc: Seq<Seq<char>>,
) -> Seq<Seq<char>>
    decreases q.len() - i,
{
    if i < 0 || i >= q.len() {
        flush(acc, cur)
    } else if q[i] == '"' {
        if in_quotes && trim(cur).len() > 0 {
            term_scan(q, i + 1, seq![], false, flush(acc, cur))
        } else {
            term_scan(q, i + 1, cur, !in_quotes, acc)
        }
    } else if is_ws(q[i]) && !in_quotes {
        term_scan(q, i + 1, seq![], in_quotes, flush(acc, cur))
    } else {
        term_scan(q, i + 1, cur.push(q[i]), in_quotes, acc)
    }
}

pub open spec fn keep_nonempty(s: Seq<Seq<char>>) -> Seq<Seq<char>>
    decreases s.len(),
{
    if s.len() == 0 {
        seq![]
    } else if s.last().len() > 0 {
        keep_nonempty(s.drop_last()).push(s.last())
    } else {
        keep_nonempty(s.drop_last())
    }
}

/// `Vec::dedup`: runs of equal neighbours collapsed to one.
pub open spec fn dedup_adjacent(s: Seq<Seq<char>>) -> Seq<Seq<char>>
    decreases s.len(),
{
    if s.len() == 0 {
        seq![]
    } else {
        let d = dedup_adjacent(s.drop_last());
        if d.len() > 0 && d.last() == s.last() {
            d
        } else {
            d.push(s.last())
        }
    }
}

/// The lowercase terms of a query, honouring `"quoted phrases"`.
pub open spec fn query_terms(q: Seq<char>) -> Seq<Seq<char>> {
    dedup_adjacent(keep_nonempty(term_scan(q, 0, seq![], false, seq![])))
}

proof fn lemma_term_scan_len(
    q: Seq<char>,
    i: int,
    cur: Seq<char>,
    in_quotes: bool,
    acc: Seq<Seq<char>>,
)
    requires
        0 <= i <= q.len(),
        acc.len() + cur.len() <= i,
    ensures
        term_scan(q, i, cur, in_quotes, acc).len() <= q.len(),
    decreases q.len() - i,
{
    crate::text::lemma_skip_ws_bounds(cur, 0);
    if i < q.len() {
        if q[i] == '"' {
            if in_quotes && trim(cur).len() > 0 {
                lemma_term_scan_len(q, i + 1, seq![], false, flush(acc, cur));
            } else {
                lemma_term_scan_len(q, i + 1, cur, !in_quotes, acc);
            }
        } else if is_ws(q[i]) && !in_quotes {
            lemma_term_scan_len(q, i + 1, seq![], in_quotes, flush(acc, cur));
        } else {
            lemma_term_scan_len(q, i + 1, cur.push(q[i]), in_quotes, acc);
        }
    }
}

proof fn lemma_trim_len(s: Seq<char>)
    ensures
        trim(s).len() <= s.len(),
{
    crate::text::lemma_skip_ws_bounds(s, 0);
    let a = crate::text::trim_start(s);
    crate::text::lemma_back_ws_bounds(a, a.len() as int);
}

proof fn lemma_keep_dedup(s: Seq<Seq<char>>)
    ensures
        keep_nonempty(s).len() <= s.len(),
        dedup_adjacent(s).len() <= s.len(),
        forall|j: int| 0 <= j < keep_nonempty(s).len() ==> (#[trigger] keep_nonempty(s)[j]).len() > 0,
        forall|j: int| 0 <= j < dedup_adjacent(s).len() ==> s.contains(#[trigger] dedup_adjacent(s)[j]),
    decreases s.len(),
{
    if s.len() > 0 {
        lemma_keep_dedup(s.drop_last());
        let d = dedup_adjacent(s.drop_last());
        assert forall|j: int| 0 <= j < dedup_adjacent(s).len() implies s.contains(
            #[trigger] dedup_adjacent(s)[j],
        ) by {
            if j < d.len() {
                assert(s.drop_last().contains(d[j]));
                let x = choose|x: int| 0 <= x < s.drop_last().len() && s.drop_last()[x] == d[j];
                assert(s[x] == d[j]);
            } else {
                assert(s[s.len() - 1] == s.last());
            }
        }
    }
}

fn flush_exec(acc: &mut Vec<String>, cur: &Vec<char>)
    ensures
        strings_view(final(acc)@) == flush(strings_view(old(acc)@), cur@),
{
    let t = trim_vec(cur.as_slice());
    if t.len() > 0 {
        let ghost before = strings_view(acc@);
        acc.push(string_of(to_lower(t.as_slice()).as_slice()));
        assert(strings_view(acc@) =~= before.push(lowercase(t@)));
    }
}

/// Split a query into lowercase terms, honouring `"quoted phrases"`.
pub fn parse_terms(query: &[char]) -> (r: Vec<String>)
    ensures
        strings_view(r@) == query_terms(query@),
        r@.len() <= query@.len(),
        forall|j: int| 0 <= j < r@.len() ==> (#[trigger] r@[j])@.len() > 0,
{
    let mut terms: Vec<String> = Vec::new();
    let mut current: Vec<char> = Vec::new();
    let mut in_quotes = false;
    let ghost total = term_scan(query@, 0, seq![], false, seq![]);
    assert(strings_view(terms@) =~= Seq::<Seq<char>>::empty());
    assert(current@ =~= Seq::<char>::empty());
    let mut i: usize = 0;
    while i < query.len()
        invariant
            i <= query@.len(),
            term_scan(query@, i as int, current@, in_quotes, strings_view(terms@)) == total,
        decreases query@.len() - i,
    {
        let ch = query[i];
        if ch == '"' {
            let t = trim_vec(current.as_slice());
            if in_quotes && t.len() > 0 {
                flush_exec(&mut terms, &current);
                current = Vec::new();
                in_quotes = false;
            } else {
                in_quotes = !in_quotes;
            }
        } else if is_whitespace(ch) && !in_quotes {
            flush_exec(&mut terms, &current);
            current = Vec::new();
        } else {
            current.push(ch);
        }
        i += 1;
    }
    flush_exec(&mut terms, &current);
    proof {
        lemma_term_scan_len(query@, 0, seq![], false, seq![]);
        lemma_keep_dedup(total);
        lemma_keep_dedup(keep_nonempty(total));
    }
    let kept = keep_nonempty_exec(terms);
    let r = dedup_exec(kept);
    proof {
        let k = keep_nonempty(total);
        assert forall|j: int| 0 <= j < r@.len() implies (#[trigger] r@[j])@.len() > 0 by {
            assert(strings_view(r@)[j] == r@[j]@);
            assert(k.contains(dedup_adjacent(k)[j]));
            let x = choose|x: int| 0 <= x < k.len() && k[x] == dedup_adjacent(k)[j];
            assert(k[x].len() > 0);
        }
    }
    r
}

fn keep_nonempty_exec(v: Vec<String>) -> (r: Vec<String>)
    ensures
        strings_view(r@) == keep_nonempty(strings_view(v@)),
{
    let ghost sv = strings_view(v@);
    let mut out: Vec<String> = Vec::new();
    let mut k: usize = 0;
    while k < v.len()
        invariant
            k <= v@.len(),
            sv == strings_view(v@),
            strings_view(out@) == keep_nonempty(sv.subrange(0, k as int)),
        decreases v@.len() - k,
    {
        let ghost before = strings_view(out@);
        assert(sv.subrange(0, k + 1).drop_last() =~= sv.subrange(0, k as int));
        assert(sv.subrange(0, k + 1).last() == v@[k as int]@);
        if chars_of(v[k].as_str()).len() > 0 {
            out.push(copy_string(&v[k]));
            assert(strings_view(out@) =~= before.push(v@[k as int]@));
        }
        k += 1;
    }
    assert(sv.subrange(0, k as int) =~= sv);
    out
}

fn dedup_exec(v: Vec<String>) -> (r: Vec<String>)
    ensures
        strings_view(r@) == dedup_adjacent(strings_view(v@)),
{
    let ghost sv = strings_view(v@);
    let mut out: Vec<String> = Vec::new();
    let mut k: usize = 0;
    while k < v.len()
        invariant
            k <= v@.len(),
            sv == strings_view(v@),
            strings_view(out@) == dedup_adjacent(sv.subrange(0, k as int)),
        decreases v@.len() - k,
    {
        let ghost before = strings_view(out@);
        assert(sv.subrange(0, k + 1).drop_last() =~= sv.subrange(0, k as int));
        assert(sv.subrange(0, k + 1).last() == v@[k as int]@);
        let same = out.len() > 0 && out[out.len() - 1] == v[k];
        if !same {
            out.push(copy_string(&v[k]));
            assert(strings_view(out@) =~= before.push(v@[k as int]@));
        } else {
            assert(before.last() == out@[out@.len() - 1]@);
        }
        k += 1;
    }
    assert(sv.subrange(0, k as int) =~= sv);
    out
}

// ---------------------------------------------------------------------------
// snippets
// ---------------------------------------------------------------------------

/// At most `max` characters, with `…` standing for what was cut.
pub open spec fn clip(t: Seq<char>, max: nat) -> Seq<char> {
    if t.len() <= max {
        t
    } else {
        t.subrange(0, max as int).push('…')
    }
}

fn clip_exec(t: &[char], max: usize) -> (r: Vec<char>)
    ensures
        r@ == clip(t@, max as nat),
{
    if t.len() <= max {
        return slice_of(t, 0, t.len());
    }
    let mut out = slice_of(t, 0, max);
    out.push('…');
    out
}

/// Some term occurs in the text.
pub open spec fn any_term(text: Seq<char>, terms: Seq<Seq<char>>) -> bool {
    exists|j: int| 0 <= j < terms.len() && contains_seq(text, #[trigger] terms[j])
}

/// Matching lines from line `k` on, appended to `acc` until it holds
/// `limit`: a line matches when, lowercased, it contains a term, and it is
/// shown trimmed and clipped to 240 characters; blank ones are skipped.
pub open spec fn collect_from(
    ls: Seq<Seq<char>>,
    terms: Seq<Seq<char>>,
    limit: nat,
    k: int,
    acc: Seq<SpecMatch>,
) -> Seq<SpecMatch>
    decreases ls.len() - k,
{
    if k < 0 || k >= ls.len() || acc.len() >= limit {
        acc
    } else if any_term(lowercase(ls[k]), terms) && trim(ls[k]).len() > 0 {
        collect_from(
            ls,
            terms,
            limit,
            k + 1,
            acc.push(SpecMatch { line: (k + 1) as nat, text: clip(trim(ls[k]), 240) }),
        )
    } else {
        collect_from(ls, terms, limit, k + 1, acc)
    }
}

fn any_term_exec(text: &[char], terms: &Vec<Vec<char>>) -> (r: bool)
    ensures
        r == any_term(text@, terms@.map_values(|t: Vec<char>| t@)),
{
    let ghost tv = terms@.map_values(|t: Vec<char>| t@);
    let mut j: usize = 0;
    while j < terms.len()
        invariant
            j <= terms@.len(),
            tv == terms@.map_values(|t: Vec<char>| t@),
            forall|m: int| 0 <= m < j ==> !contains_seq(text@, #[trigger] tv[m]),
        decreases terms@.len() - j,
    {
        assert(tv[j as int] == terms@[j as int]@);
        if contains(text, terms[j].as_slice()) {
            return true;
        }
        j += 1;
    }
    false
}

fn collect_matches(body: &[char], terms: &Vec<Vec<char>>, limit: usize) -> (r: Vec<SearchMatch>)
    ensures
        matches_view(r@) == collect_from(
            lines(body@),
            terms@.map_values(|t: Vec<char>| t@),
            limit as nat,
            0,
            seq![],
        ),
{
    let ls = split_lines(body);
    let ghost lv = ls@.map_values(|l: Vec<char>| l@);
    let ghost tv = terms@.map_values(|t: Vec<char>| t@);
    let ghost total = collect_from(lv, tv, limit as nat, 0, seq![]);
    let mut out: Vec<SearchMatch> = Vec::new();
    assert(matches_view(out@) =~= Seq::<SpecMatch>::empty());
    let mut k: usize = 0;
    while k < ls.len() && out.len() < limit
        invariant
            k <= ls@.len(),
            lv == ls@.map_values(|l: Vec<char>| l@),
            lv == lines(body@),
            tv == terms@.map_values(|t: Vec<char>| t@),
            collect_from(lv, tv, limit as nat, k as int, matches_view(out@)) == total,
        decreases ls@.len() - k,
    {
        assert(lv[k as int] == ls@[k as int]@);
        let lowered = to_lower(ls[k].as_slice());
        if any_term_exec(lowered.as_slice(), terms) {
            let text = trim_vec(ls[k].as_slice());
            if text.len() > 0 {
                let ghost before = matches_view(out@);
                out.push(SearchMatch { line: k + 1, text: string_of(clip_exec(text.as_slice(), 240).as_slice()) });
                assert(matches_view(out@) =~= before.push(
                    SpecMatch { line: (k + 1) as nat, text: clip(trim(lv[k as int]), 240) },
                ));
            }
        }
        k += 1;
    }
    out
}

// ---------------------------------------------------------------------------
// scoring
// ---------------------------------------------------------------------------

/// Non-overlapping occurrences of `needle` in `hay` from `i` on, leftmost
/// first (`str::matches(..).count()` for a non-empty needle).
pub open spec fn count_matches(hay: Seq<char>, needle: Seq<char>, i: int) -> nat
    decreases hay.len() - i,
{
    if needle.len() == 0 || i < 0 || i + needle.len() > hay.len() {
        0
    } else if occurs_at(hay, needle, i) {
        1 + count_matches(hay, needle, i + needle.len())
    } else {
        count_matches(hay, needle, i + 1)
    }
}

/// Strings joined with single spaces.
pub open spec fn join_spaces(parts: Seq<Seq<char>>) -> Seq<char>
    decreases parts.len(),
{
    if parts.len() == 0 {
        seq![]
    } else if parts.len() == 1 {
        parts[0]
    } else {
        join_spaces(parts.drop_last()) + seq![' '] + parts.last()
    }
}

/// The lowercased fields a note is searched in.
pub struct Fields {
    pub title: Seq<char>,
    pub path: Seq<char>,
    pub body: Seq<char>,
    pub tags: Seq<char>,
}

pub open spec fn fields_of(n: IndexedNote) -> Fields {
    Fields {
        title: lowercase(n.meta.title@),
        path: lowercase(n.meta.path@),
        body: lowercase(n.body@),
        tags: lowercase(join_spaces(strings_view(n.meta.tags@))),
    }
}

pub open spec fn body_bonus(f: Fields, t: Seq<char>) -> int {
    let c = count_matches(f.body, t, 0);
    if (c as u32) < 20 {
        (c as u32) as int
    } else {
        20
    }
}

/// What one term adds to a note's score: 100 for the whole title, else 40
/// for part of it; 25 for a tag; 10 for the path; one per body occurrence up
/// to 20.
pub open spec fn term_score(f: Fields, t: Seq<char>) -> int {
    (if f.title == t {
        100int
    } else if contains_seq(f.title, t) {
        40int
    } else {
        0int
    }) + (if contains_seq(f.tags, t) {
        25int
    } else {
        0int
    }) + (if contains_seq(f.path, t) {
        10int
    } else {
        0int
    }) + body_bonus(f, t)
}

/// Titles weigh most: with the same path, body and tags, a note whose
/// lowercased title holds a term, but is not all of it, scores 40 more for
/// the term than one whose title does not hold it, and one whose title is
/// the term scores 100 more.
pub proof fn lemma_title_bonus(f: Fields, g: Fields, t: Seq<char>)
    requires
        f.path == g.path,
        f.body == g.body,
        f.tags == g.tags,
        !contains_seq(g.title, t),
    ensures
        contains_seq(f.title, t) && f.title != t ==> term_score(f, t) == term_score(g, t) + 40,
        f.title == t ==> term_score(f, t) == term_score(g, t) + 100,
{
    if g.title == t {
        assert(occurs_at(g.title, t, 0)) by {
            assert(g.title.subrange(0, t.len() as int) =~= t);
        }
    }
}

/// A term found among a note's tags adds 25 to its score, one found in its
/// path 10, next to an otherwise equal note where it is not found there.
pub proof fn lemma_tag_and_path_bonus(f: Fields, g: Fields, t: Seq<char>)
    ensures
        f.title == g.title && f.path == g.path && f.body == g.body && contains_seq(f.tags, t) && !contains_seq(
            g.tags,
            t,
        ) ==> term_score(f, t) == term_score(g, t) + 25,
        f.title == g.title && f.tags == g.tags && f.body == g.body && contains_seq(f.path, t) && !contains_seq(
            g.path,
            t,
        ) ==> term_score(f, t) == term_score(g, t) + 10,
{
}

/// Each occurrence of a term in the body adds one, up to twenty (the count
/// is taken as a `u32` first, as the scoring does).
pub proof fn lemma_body_bonus(f: Fields, t: Seq<char>)
    ensures
        count_matches(f.body, t, 0) <= 20 ==> body_bonus(f, t) == count_matches(f.body, t, 0),
        20 <= count_matches(f.body, t, 0) <= u32::MAX ==> body_bonus(f, t) == 20,
{
}

pub open spec fn score_of(f: Fields, terms: Seq<Seq<char>>) -> int
    decreases terms.len(),
{
    if terms.len() == 0 {
        0
    } else {
        score_of(f, terms.drop_last()) + term_score(f, terms.last())
    }
}

/// Every term lands in the title, path, body or tags.
pub open spec fn all_terms(f: Fields, terms: Seq<Seq<char>>) -> bool {
    forall|j: int|
        0 <= j < terms.len() ==> contains_seq(f.title, #[trigger] terms[j]) || contains_seq(
            f.path,
            terms[j],
        ) || contains_seq(f.body, terms[j]) || contains_seq(f.tags, terms[j])
}

pub struct SpecOptions {
    pub limit: nat,
    pub max_matches: nat,
    pub folder: Option<Seq<char>>,
    pub tag: Option<Seq<char>>,
}

pub open spec fn options_view(o: SearchOptions) -> SpecOptions {
    SpecOptions {
        limit: o.limit as nat,
        max_matches: o.max_matches_per_note as nat,
        folder: crate::links::opt_view(o.folder),
        tag: crate::links::opt_view(o.tag),
    }
}

/// The path prefix a folder filter stands for: the folder without
/// surrounding `/`s, then one `/`; nothing for the vault root.
pub open spec fn folder_prefix(f: Seq<char>) -> Seq<char> {
    let t = trim_end_char(trim_start_char(f, '/'), '/');
    if t.len() == 0 {
        seq![]
    } else {
        t.push('/')
    }
}

pub open spec fn passes_filters(n: IndexedNote, o: SpecOptions) -> bool {
    &&& match o.folder {
        Some(f) => folder_prefix(f).len() == 0 || occurs_at(path_of(n), folder_prefix(f), 0),
        None => true,
    }
    &&& match o.tag {
        Some(t) => carries_tag(n, tag_needle(t)),
        None => true,
    }
}

/// The hits among the notes `i..`, in index order.
pub open spec fn hits_from(ns: Seq<IndexedNote>, terms: Seq<Seq<char>>, o: SpecOptions, i: int) -> Seq<
    SpecHit,
>
    decreases ns.len() - i,
{
    if i < 0 || i >= ns.len() {
        seq![]
    } else {
        let n = ns[i];
        let f = fields_of(n);
        (if passes_filters(n, o) && all_terms(f, terms) {
            seq![
                SpecHit {
                    path: n.meta.path@,
                    title: n.meta.title@,
                    score: score_of(f, terms),
                    matches: collect_from(lines(n.body@), terms, o.max_matches, 0, seq![]),
                },
            ]
        } else {
            seq![]
        }) + hits_from(ns, terms, o, i + 1)
    }
}

// ---------------------------------------------------------------------------
// ordering
// ---------------------------------------------------------------------------

/// Hit `a` comes before hit `b`: higher score first, then by path.
pub open spec fn hit_before(a: SpecHit, b: SpecHit) -> bool {
    a.score > b.score || (a.score == b.score && seq_lt(a.path, b.path))
}

/// Where `h` goes in `s`: before the first hit it comes before.
pub open spec fn insert_pos(s: Seq<SpecHit>, h: SpecHit, k: int) -> int
    decreases s.len() - k,
{
    if k < 0 || k >= s.len() {
        s.len() as int
    } else if hit_before(h, s[k]) {
        k
    } else {
        insert_pos(s, h, k + 1)
    }
}

/// The hits in order, equal ones keeping their relative order (a stable
/// sort).
pub open spec fn sort_hits(s: Seq<SpecHit>) -> Seq<SpecHit>
    decreases s.len(),
{
    if s.len() == 0 {
        seq![]
    } else {
        let sorted = sort_hits(s.drop_last());
        sorted.insert(insert_pos(sorted, s.last(), 0), s.last())
    }
}

/// What a search returns: the hits, best first, at most `limit` of them.
pub open spec fn search_spec(ns: Seq<IndexedNote>, q: Seq<char>, o: SpecOptions) -> Seq<SpecHit> {
    let terms = query_terms(q);
    if terms.len() == 0 {
        seq![]
    } else {
        let s = sort_hits(hits_from(ns, terms, o, 0));
        if s.len() > o.limit {
            s.subrange(0, o.limit as int)
        } else {
            s
        }
    }
}

// ---------------------------------------------------------------------------
// searching
// ---------------------------------------------------------------------------

fn count_matches_exec(hay: &[char], needle: &[char]) -> (r: usize)
    ensures
        r == count_matches(hay@, needle@, 0),
{
    if needle.len() == 0 {
        return 0;
    }
    let mut n: usize = 0;
    let mut i: usize = 0;
    while needle.len() <= hay.len() && i <= hay.len() - needle.len()
        invariant
            needle@.len() > 0,
            i <= hay@.len(),
            n <= i,
            n + count_matches(hay@, needle@, i as int) == count_matches(hay@, needle@, 0),
        decreases hay@.len() - i,
    {
        if occurs_at_exec(hay, needle, i) {
            n += 1;
            i += needle.len();
        } else {
            i += 1;
        }
    }
    n
}

fn join_spaces_exec(parts: &Vec<String>) -> (r: Vec<char>)
    ensures
        r@ == join_spaces(strings_view(parts@)),
{
    let ghost pv = strings_view(parts@);
    let mut out: Vec<char> = Vec::new();
    let mut k: usize = 0;
    while k < parts.len()
        invariant
            k <= parts@.len(),
            pv == strings_view(parts@),
            out@ == join_spaces(pv.subrange(0, k as int)),
        decreases parts@.len() - k,
    {
        let ghost before = out@;
        if k > 0 {
            out.push(' ');
        }
        let mut piece = chars_of(parts[k].as_str());
        out.append(&mut piece);
        proof {
            assert(pv.subrange(0, k + 1).drop_last() =~= pv.subrange(0, k as int));
            assert(pv.subrange(0, k + 1).last() == parts@[k as int]@);
            if k == 0 {
                assert(pv.subrange(0, 1)[0] == parts@[0]@);
                assert(out@ =~= parts@[0]@);
            } else {
                assert(out@ =~= before + seq![' '] + parts@[k as int]@);
            }
        }
        k += 1;
    }
    assert(pv.subrange(0, k as int) =~= pv);
    out
}

proof fn lemma_term_score(f: Fields, t: Seq<char>)
    ensures
        0 <= term_score(f, t) <= 155,
{
}

fn term_score_exec(title: &[char], path: &[char], body: &[char], tags: &[char], t: &[char]) -> (r: u32)
    ensures
        r == term_score(
            Fields { title: title@, path: path@, body: body@, tags: tags@ },
            t@,
        ),
{
    let mut score: u32 = 0;
    if vec_eq(title, t) {
        score += 100;
    } else if contains(title, t) {
        score += 40;
    }
    if contains(tags, t) {
        score += 25;
    }
    if contains(path, t) {
        score += 10;
    }
    let c = count_matches_exec(body, t);
    let cc = c as u32;
    let bonus: u32 = if cc < 20 { cc } else { 20 };
    score + bonus
}

/// Search the vault. All terms must appear somewhere in a note for it to match.
///
/// Quoted segments (`"exact phrase"`) are matched verbatim.
pub fn search(index: &VaultIndex, query: &str, options: &SearchOptions) -> (r: Vec<SearchHit>)
    requires
        155 * query_terms(query@).len() <= u32::MAX,
    ensures
        hits_view(r@) == search_spec(index.notes_view(), query@, options_view(*options)),
{
    let q = chars_of(query);
    let term_strings = parse_terms(q.as_slice());
    if term_strings.len() == 0 {
        return Vec::new();
    }
    let mut terms: Vec<Vec<char>> = Vec::new();
    let mut m: usize = 0;
    while m < term_strings.len()
        invariant
            m <= term_strings@.len(),
            terms@.len() == m,
            forall|x: int| 0 <= x < m ==> (#[trigger] terms@[x])@ == term_strings@[x]@,
        decreases term_strings@.len() - m,
    {
        terms.push(chars_of(term_strings[m].as_str()));
        m += 1;
    }
    let ghost tv = terms@.map_values(|t: Vec<char>| t@);
    assert(tv =~= query_terms(query@));
    let ghost o = options_view(*options);
    let folder: Option<Vec<char>> = match &options.folder {
        Some(f) => {
            let t = trim_end_char_vec(trim_start_char_vec(chars_of(f.as_str()).as_slice(), '/').as_slice(), '/');
            if t.len() == 0 {
                Some(Vec::new())
            } else {
                let mut p = t;
                p.push('/');
                Some(p)
            }
        },
        None => None,
    };
    let needle: Option<Vec<char>> = match &options.tag {
        Some(t) => Some(to_lower(trim_start_char_vec(chars_of(t.as_str()).as_slice(), '#').as_slice())),
        None => None,
    };
    let notes = index.notes();
    let ghost ns = index.notes_view();
    let ghost all = hits_from(ns, tv, o, 0);
    let mut sorted: Vec<SearchHit> = Vec::new();
    let mut i: usize = 0;
    proof {
        assert(hits_view(sorted@) =~= Seq::<SpecHit>::empty());
        assert(all.subrange(0, 0) =~= Seq::<SpecHit>::empty());
    }
    let ghost mut taken: Seq<SpecHit> = seq![];
    while i < notes.len()
        invariant
            i <= ns.len(),
            notes@ == ns,
            tv == terms@.map_values(|t: Vec<char>| t@),
            155 * tv.len() <= u32::MAX,
            forall|x: int| 0 <= x < tv.len() ==> (#[trigger] tv[x]).len() > 0,
            o == options_view(*options),
            match folder {
                Some(p) => o.folder matches Some(f) && p@ == folder_prefix(f),
                None => o.folder is None,
            },
            match needle {
                Some(nd) => o.tag matches Some(t) && nd@ == tag_needle(t),
                None => o.tag is None,
            },
            taken + hits_from(ns, tv, o, i as int) == all,
            hits_view(sorted@) == sort_hits(taken),
        decreases ns.len() - i,
    {
        let note = &notes[i];
        let ghost n = ns[i as int];
        let path = chars_of(note.meta.path.as_str());
        let pass_folder = match &folder {
            Some(p) => p.len() == 0 || crate::text::starts_with(path.as_slice(), p.as_slice()),
            None => true,
        };
        let pass_tag = match &needle {
            Some(nd) => {
                let mut hit = false;
                let mut j: usize = 0;
                while j < note.meta.tags.len()
                    invariant
                        j <= note.meta.tags@.len(),
                        note == n,
                        hit == exists|b: int|
                            0 <= b < j && crate::index::tag_matches(
                                #[trigger] crate::index::note_tags(n)[b],
                                nd@,
                            ),
                    decreases note.meta.tags@.len() - j,
                {
                    assert(crate::index::note_tags(n)[j as int] == note.meta.tags@[j as int]@);
                    if crate::index::tag_matches_exec(&note.meta.tags[j], nd.as_slice()) {
                        hit = true;
                    }
                    j += 1;
                }
                hit
            },
            None => true,
        };
        let ghost before = taken;
        if pass_folder && pass_tag {
            let title_l = to_lower(chars_of(note.meta.title.as_str()).as_slice());
            let path_l = to_lower(path.as_slice());
            let body_l = to_lower(chars_of(note.body.as_str()).as_slice());
            let tags_l = to_lower(join_spaces_exec(&note.meta.tags).as_slice());
            let ghost f = fields_of(n);
            assert(f == (Fields { title: title_l@, path: path_l@, body: body_l@, tags: tags_l@ }));
            let mut every = true;
            let mut score: u32 = 0;
            let mut j: usize = 0;
            while j < terms.len()
                invariant
                    j <= terms@.len(),
                    tv == terms@.map_values(|t: Vec<char>| t@),
                    155 * tv.len() <= u32::MAX,
                    f == (Fields { title: title_l@, path: path_l@, body: body_l@, tags: tags_l@ }),
                    every == forall|x: int|
                        0 <= x < j ==> contains_seq(f.title, #[trigger] tv[x]) || contains_seq(
                            f.path,
                            tv[x],
                        ) || contains_seq(f.body, tv[x]) || contains_seq(f.tags, tv[x]),
                    score == score_of(f, tv.subrange(0, j as int)),
                    score <= 155 * j,
                decreases terms@.len() - j,
            {
                let t = terms[j].as_slice();
                assert(tv[j as int] == t@);
                let here = contains(title_l.as_slice(), t) || contains(path_l.as_slice(), t) || contains(
                    body_l.as_slice(),
                    t,
                ) || contains(tags_l.as_slice(), t);
                if !here {
                    every = false;
                }
                let ts = term_score_exec(
                    title_l.as_slice(),
                    path_l.as_slice(),
                    body_l.as_slice(),
                    tags_l.as_slice(),
                    t,
                );
                proof {
                    lemma_term_score(f, t@);
                    assert(tv.subrange(0, j + 1).drop_last() =~= tv.subrange(0, j as int));
                    assert(tv.subrange(0, j + 1).last() == t@);
                }
                score = score + ts;
                j += 1;
            }
            assert(tv.subrange(0, j as int) =~= tv);
            if every {
                let matches = collect_matches(chars_of(note.body.as_str()).as_slice(), &terms, options.max_matches_per_note);
                let hit = SearchHit {
                    path: copy_string(&note.meta.path),
                    title: copy_string(&note.meta.title),
                    score,
                    matches,
                };
                let ghost h = hit_view(hit);
                let pos = insert_position(&sorted, &hit);
                proof {
                    lemma_insert_pos_bound(hits_view(sorted@), h, 0);
                }
                let ghost sv = hits_view(sorted@);
                sorted.insert(pos, hit);
                proof {
                    taken = before.push(h);
                    assert(taken.drop_last() =~= before);
                    assert(hits_view(sorted@) =~= sv.insert(pos as int, h));
                }
            }
        }
        proof {
            assert(taken + hits_from(ns, tv, o, i + 1) =~= before + hits_from(ns, tv, o, i as int));
        }
        i += 1;
    }
    assert(taken + hits_from(ns, tv, o, i as int) =~= taken);
    sorted.truncate(options.limit);
    sorted
}

proof fn lemma_insert_pos_bound(s: Seq<SpecHit>, h: SpecHit, k: int)
    requires
        0 <= k <= s.len(),
    ensures
        k <= insert_pos(s, h, k) <= s.len(),
    decreases s.len() - k,
{
    if k < s.len() && !hit_before(h, s[k]) {
        lemma_insert_pos_bound(s, h, k + 1);
    }
}

fn hit_before_exec(a: &SearchHit, b: &SearchHit) -> (r: bool)
    ensures
        r == hit_before(hit_view(*a), hit_view(*b)),
{
    a.score > b.score || (a.score == b.score && crate::sorting::str_lt(&a.path, &b.path))
}

fn insert_position(s: &Vec<SearchHit>, h: &SearchHit) -> (r: usize)
    ensures
        r == insert_pos(hits_view(s@), hit_view(*h), 0),
{
    let ghost sv = hits_view(s@);
    let mut k: usize = 0;
    while k < s.len()
        invariant
            k <= s@.len(),
            sv == hits_view(s@),
            insert_pos(sv, hit_view(*h), k as int) == insert_pos(sv, hit_view(*h), 0),
        decreases s@.len() - k,
    {
        assert(sv[k as int] == hit_view(s@[k as int]));
        if hit_before_exec(h, &s[k]) {
            return k;
        }
        k += 1;
    }
    k
}

// ---------------------------------------------------------------------------
// laws of ordering
// ---------------------------------------------------------------------------

proof fn lemma_hit_before_order(a: SpecHit, b: SpecHit, c: SpecHit)
    ensures
        hit_before(a, b) ==> !hit_before(b, a),
        hit_before(a, b) && hit_before(b, c) ==> hit_before(a, c),
{
    crate::text::lemma_lt_asymmetric(a.path, b.path);
    if seq_lt(a.path, b.path) && seq_lt(b.path, c.path) {
        crate::text::lemma_lt_transitive(a.path, b.path, c.path);
    }
}

proof fn lemma_insert_pos_props(s: Seq<SpecHit>, h: SpecHit, k: int)
    requires
        0 <= k <= s.len(),
    ensures
        k <= insert_pos(s, h, k) <= s.len(),
        forall|m: int| k <= m < insert_pos(s, h, k) ==> !hit_before(h, #[trigger] s[m]),
        insert_pos(s, h, k) < s.len() ==> hit_before(h, s[insert_pos(s, h, k)]),
    decreases s.len() - k,
{
    if k < s.len() && !hit_before(h, s[k]) {
        lemma_insert_pos_props(s, h, k + 1);
    }
}

/// The order search results come in: no hit comes before one listed earlier.
pub open spec fn hits_ordered(s: Seq<SpecHit>) -> bool {
    forall|i: int, j: int| 0 <= i < j < s.len() ==> !hit_before(#[trigger] s[j], #[trigger] s[i])
}

/// Sorting keeps every hit and puts them in order: higher scores first,
/// equal scores by path.
pub proof fn lemma_sort_hits(s: Seq<SpecHit>)
    ensures
        sort_hits(s).len() == s.len(),
        hits_ordered(sort_hits(s)),
    decreases s.len(),
{
    if s.len() > 0 {
        let prev = sort_hits(s.drop_last());
        lemma_sort_hits(s.drop_last());
        let h = s.last();
        let p = insert_pos(prev, h, 0);
        lemma_insert_pos_props(prev, h, 0);
        let r = prev.insert(p, h);
        assert forall|i: int, j: int| 0 <= i < j < r.len() implies !hit_before(
            #[trigger] r[j],
            #[trigger] r[i],
        ) by {
            if j < p {
                assert(r[i] == prev[i] && r[j] == prev[j]);
            } else if j == p {
                assert(r[i] == prev[i]);
                assert(!hit_before(h, prev[i]));
            } else if i == p {
                assert(r[j] == prev[j - 1]);
                if j - 1 == p {
                    lemma_hit_before_order(h, prev[p], h);
                } else {
                    lemma_hit_before_order(prev[j - 1], h, prev[p]);
                    lemma_hit_before_order(h, prev[p], prev[j - 1]);
                }
            } else if i < p {
                assert(r[i] == prev[i] && r[j] == prev[j - 1]);
            } else {
                assert(r[i] == prev[i - 1] && r[j] == prev[j - 1]);
            }
        }
    }
}

/// A search returns at most `limit` hits, best first.
pub proof fn lemma_search_ordered(ns: Seq<IndexedNote>, q: Seq<char>, o: SpecOptions)
    ensures
        search_spec(ns, q, o).len() <= o.limit,
        hits_ordered(search_spec(ns, q, o)),
{
    let terms = query_terms(q);
    if terms.len() > 0 {
        let s = sort_hits(hits_from(ns, terms, o, 0));
        lemma_sort_hits(hits_from(ns, terms, o, 0));
        if s.len() > o.limit {
            let t = s.subrange(0, o.limit as int);
            assert forall|i: int, j: int| 0 <= i < j < t.len() implies !hit_before(
                #[trigger] t[j],
                #[trigger] t[i],
            ) by {
                assert(t[i] == s[i] && t[j] == s[j]);
            }
        }
    }
}

/// A hit that a note of the index earns: one passing the filters and holding
/// every term.
pub open spec fn earned(ns: Seq<IndexedNote>, terms: Seq<Seq<char>>, o: SpecOptions, h: SpecHit) -> bool {
    exists|i: int|
        0 <= i < ns.len() && #[trigger] path_of(ns[i]) == h.path && passes_filters(ns[i], o) && all_terms(
            fields_of(ns[i]),
            terms,
        )
}

proof fn lemma_hits_from_earned(ns: Seq<IndexedNote>, terms: Seq<Seq<char>>, o: SpecOptions, i: int)
    ensures
        forall|k: int|
            0 <= k < hits_from(ns, terms, o, i).len() ==> earned(ns, terms, o, #[trigger] hits_from(ns, terms, o, i)[k]),
    decreases ns.len() - i,
{
    if 0 <= i < ns.len() {
        lemma_hits_from_earned(ns, terms, o, i + 1);
        let rest = hits_from(ns, terms, o, i + 1);
        let n = ns[i];
        let f = fields_of(n);
        if passes_filters(n, o) && all_terms(f, terms) {
            let h = hits_from(ns, terms, o, i)[0];
            assert(path_of(ns[i]) == h.path);
            assert forall|k: int| 0 <= k < hits_from(ns, terms, o, i).len() implies earned(
                ns,
                terms,
                o,
                #[trigger] hits_from(ns, terms, o, i)[k],
            ) by {
                if k > 0 {
                    assert(hits_from(ns, terms, o, i)[k] == rest[k - 1]);
                }
            }
        } else {
            assert(hits_from(ns, terms, o, i) =~= rest);
        }
    }
}

proof fn lemma_sort_hits_members(s: Seq<SpecHit>)
    ensures
        forall|k: int| 0 <= k < sort_hits(s).len() ==> s.contains(#[trigger] sort_hits(s)[k]),
    decreases s.len(),
{
    if s.len() > 0 {
        lemma_sort_hits_members(s.drop_last());
        lemma_sort_hits(s.drop_last());
        let prev = sort_hits(s.drop_last());
        let p = insert_pos(prev, s.last(), 0);
        lemma_insert_pos_props(prev, s.last(), 0);
        assert forall|k: int| 0 <= k < sort_hits(s).len() implies s.contains(#[trigger] sort_hits(s)[k]) by {
            if k < p {
                assert(sort_hits(s)[k] == prev[k]);
                let m = choose|m: int| 0 <= m < s.drop_last().len() && s.drop_last()[m] == prev[k];
                assert(s[m] == prev[k]);
            } else if k == p {
                assert(s[s.len() - 1] == s.last());
            } else {
                assert(sort_hits(s)[k] == prev[k - 1]);
                let m = choose|m: int| 0 <= m < s.drop_last().len() && s.drop_last()[m] == prev[k - 1];
                assert(s[m] == prev[k - 1]);
            }
        }
    }
}

/// Every hit a search returns is a note that passes the folder and tag
/// filters and contains every term of the query; an empty query finds
/// nothing.
pub proof fn lemma_search_hits_earned(ns: Seq<IndexedNote>, q: Seq<char>, o: SpecOptions)
    ensures
        forall|k: int|
            0 <= k < search_spec(ns, q, o).len() ==> earned(ns, query_terms(q), o, #[trigger] search_spec(ns, q, o)[k]),
        query_terms(q).len() == 0 ==> search_spec(ns, q, o).len() == 0,
{
    let terms = query_terms(q);
    if terms.len() > 0 {
        let hs = hits_from(ns, terms, o, 0);
        lemma_hits_from_earned(ns, terms, o, 0);
        lemma_sort_hits_members(hs);
        let s = sort_hits(hs);
        assert forall|k: int| 0 <= k < search_spec(ns, q, o).len() implies earned(
            ns,
            terms,
            o,
            #[trigger] search_spec(ns, q, o)[k],
        ) by {
            assert(search_spec(ns, q, o)[k] == s[k]);
            assert(hs.contains(s[k]));
            let m = choose|m: int| 0 <= m < hs.len() && hs[m] == s[k];
            assert(earned(ns, terms, o, hs[m]));
        }
    }
}

/// Number of the notes `i..` that pass the filters and hold every term.
pub open spec fn qualifying(ns: Seq<IndexedNote>, terms: Seq<Seq<char>>, o: SpecOptions, i: int) -> nat
    decreases ns.len() - i,
{
    if i < 0 || i >= ns.len() {
        0
    } else {
        (if passes_filters(ns[i], o) && all_terms(fields_of(ns[i]), terms) {
            1nat
        } else {
            0nat
        }) + qualifying(ns, terms, o, i + 1)
    }
}

proof fn lemma_hits_from_len(ns: Seq<IndexedNote>, terms: Seq<Seq<char>>, o: SpecOptions, i: int)
    requires
        0 <= i,
    ensures
        hits_from(ns, terms, o, i).len() == qualifying(ns, terms, o, i),
    decreases ns.len() - i,
{
    if i < ns.len() {
        lemma_hits_from_len(ns, terms, o, i + 1);
    }
}

/// Nothing that qualifies is dropped but by the limit: a search with terms
/// returns as many hits as there are notes passing the filters and holding
/// every term, or `limit` when there are more.
pub proof fn lemma_search_complete(ns: Seq<IndexedNote>, q: Seq<char>, o: SpecOptions)
    requires
        query_terms(q).len() > 0,
    ensures
        search_spec(ns, q, o).len() == if qualifying(ns, query_terms(q), o, 0) > o.limit {
            o.limit
        } else {
            qualifying(ns, query_terms(q), o, 0)
        },
{
    let terms = query_terms(q);
    lemma_hits_from_len(ns, terms, o, 0);
    lemma_sort_hits(hits_from(ns, terms, o, 0));
}

} // verus!
