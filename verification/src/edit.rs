//! Targeted edits of a note's text: replace an exact passage, refusing an
//! edit that would be ambiguous.

use vstd::prelude::*;

use crate::search::count_matches;
use crate::text::{chars_of, occurs_at, occurs_at_exec, string_of};
use crate::yaml::{replace, replace_exec};

verus! {

/// Why an edit was refused.
#[derive(Debug, PartialEq, Eq)]
pub enum EditError {
    /// The passage to find is empty.
    EmptyFind,
    /// The passage does not appear in the note.
    NotFound,
    /// The passage appears this many times and only one was to be replaced.
    Ambiguous(usize),
}

/// `s` with its first `pat` from `i` on replaced by `rep` (`str::replacen`
/// with a count of one).
pub open spec fn replace_first_from(s: Seq<char>, pat: Seq<char>, rep: Seq<char>, i: int) -> Seq<char>
    decreases s.len() - i,
{
    if pat.len() == 0 || i < 0 || i + pat.len() > s.len() {
        s.subrange(if 0 <= i <= s.len() { i } else { s.len() as int }, s.len() as int)
    } else if occurs_at(s, pat, i) {
        rep + s.subrange(i + pat.len(), s.len() as int)
    } else {
        seq![s[i]] + replace_first_from(s, pat, rep, i + 1)
    }
}

/// The result of an edit: the new text and the number of replacements, or
/// why it was refused.
pub open spec fn edit_spec(raw: Seq<char>, find: Seq<char>, rep: Seq<char>, all: bool) -> Result<
    (Seq<char>, nat),
    EditError,
> {
    let n = count_matches(raw, find, 0);
    if find.len() == 0 {
        Err(EditError::EmptyFind)
    } else if n == 0 {
        Err(EditError::NotFound)
    } else if n > 1 && !all {
        Err(EditError::Ambiguous(n as usize))
    } else if all {
        Ok((replace(raw, find, rep), n))
    } else {
        Ok((replace_first_from(raw, find, rep, 0), 1))
    }
}

proof fn lemma_replace_first(s: Seq<char>, pat: Seq<char>, rep: Seq<char>, i: int)
    requires
        0 <= i,
        pat.len() > 0,
        count_matches(s, pat, i) > 0,
    ensures
        exists|j: int|
            i <= j && occurs_at(s, pat, j) && (forall|m: int| i <= m < j ==> !occurs_at(s, pat, m))
                && replace_first_from(s, pat, rep, i) == s.subrange(i, j) + rep + s.subrange(
                j + pat.len(),
                s.len() as int,
            ),
    decreases s.len() - i,
{
    if occurs_at(s, pat, i) {
        assert(s.subrange(i, i) =~= Seq::<char>::empty());
        assert(replace_first_from(s, pat, rep, i) =~= s.subrange(i, i) + rep + s.subrange(
            i + pat.len(),
            s.len() as int,
        ));
    } else {
        lemma_replace_first(s, pat, rep, i + 1);
        let j = choose|j: int|
            i + 1 <= j && occurs_at(s, pat, j) && (forall|m: int| i + 1 <= m < j ==> !occurs_at(s, pat, m))
                && replace_first_from(s, pat, rep, i + 1) == s.subrange(i + 1, j) + rep + s.subrange(
                j + pat.len(),
                s.len() as int,
            );
        assert(replace_first_from(s, pat, rep, i) =~= s.subrange(i, j) + rep + s.subrange(
            j + pat.len(),
            s.len() as int,
        ));
    }
}

/// An edit of one passage leaves the rest of the note untouched: the new
/// text is the old text up to the passage's first (and only) occurrence, the
/// replacement, then the old text after it.
pub proof fn lemma_edit_in_place(raw: Seq<char>, find: Seq<char>, rep: Seq<char>)
    requires
        edit_spec(raw, find, rep, false) is Ok,
    ensures
        exists|i: int|
            occurs_at(raw, find, i) && (forall|m: int| 0 <= m < i ==> !occurs_at(raw, find, m))
                && edit_spec(raw, find, rep, false)->Ok_0.0 == raw.subrange(0, i) + rep + raw.subrange(
                i + find.len(),
                raw.len() as int,
            ),
{
    lemma_replace_first(raw, find, rep, 0);
}


fn count_occurrences(hay: &[char], needle: &[char]) -> (r: usize)
    ensures
        r == count_matches(hay@, needle@, 0),
{
    if needle.len() == 0 {
        return 0;
    }
    let mut n: usize = 0;
    let mut i: usize = 0;
    while needle.len() <= hay.len() && i <= hay.len() - needle.len()
        invariant
            needle@.len() > 0,
            i <= hay@.len(),
            n <= i,
            n + count_matches(hay@, needle@, i as int) == count_matches(hay@, needle@, 0),
        decreases hay@.len() - i,
    {
        if occurs_at_exec(hay, needle, i) {
            n += 1;
            i += needle.len();
        } else {
            i += 1;
        }
    }
    n
}

fn replace_first(s: &[char], pat: &[char], rep: &[char]) -> (r: Vec<char>)
    requires
        pat@.len() > 0,
    ensures
        r@ == replace_first_from(s@, pat@, rep@, 0),
{
    let mut out: Vec<char> = Vec::new();
    let mut i: usize = 0;
    while pat.len() <= s.len() && i <= s.len() - pat.len()
        invariant
            i <= s@.len(),
            pat@.len() > 0,
            out@ + replace_first_from(s@, pat@, rep@, i as int) == replace_first_from(s@, pat@, rep@, 0),
        decreases s@.len() - i,
    {
        if occurs_at_exec(s, pat, i) {
            let ghost before = out@;
            let mut r = crate::text::slice_of(rep, 0, rep.len());
            out.append(&mut r);
            let mut tail = crate::text::slice_of(s, i + pat.len(), s.len());
            out.append(&mut tail);
            assert(out@ =~= before + replace_first_from(s@, pat@, rep@, i as int));
            return out;
        }
        let ghost before = out@;
        out.push(s[i]);
        assert(out@ + replace_first_from(s@, pat@, rep@, i + 1) =~= before + replace_first_from(
            s@,
            pat@,
            rep@,
            i as int,
        ));
        i += 1;
    }
    let ghost before = out@;
    let mut tail = crate::text::slice_of(s, i, s.len());
    out.append(&mut tail);
    assert(out@ =~= before + replace_first_from(s@, pat@, rep@, i as int));
    out
}

/// Replace `find` by `replace` in a note's text: every occurrence when
/// `replace_all`, else the only one. Refused when `find` is empty, absent, or
/// (without `replace_all`) appears more than once — picking one occurrence
/// arbitrarily would change the wrong line. Returns the new text and the
/// number of replacements.
pub fn edit_text(raw: &str, find: &str, replace: &str, replace_all: bool) -> (r: Result<(String, usize), EditError>)
    ensures
        match (r, edit_spec(raw@, find@, replace@, replace_all)) {
            (Ok((t, n)), Ok((st, sn))) => t@ == st && n == sn,
            (Err(e), Err(se)) => e == se,
            _ => false,
        },
{
    let rc = chars_of(raw);
    let fc = chars_of(find);
    let pc = chars_of(replace);
    if fc.len() == 0 {
        return Err(EditError::EmptyFind);
    }
    let n = count_occurrences(rc.as_slice(), fc.as_slice());
    if n == 0 {
        return Err(EditError::NotFound);
    }
    if n > 1 && !replace_all {
        return Err(EditError::Ambiguous(n));
    }
    if replace_all {
        Ok((string_of(replace_exec(rc.as_slice(), fc.as_slice(), pc.as_slice()).as_slice()), n))
    } else {
        Ok((string_of(replace_first(rc.as_slice(), fc.as_slice(), pc.as_slice()).as_slice()), 1))
    }
}

} // verus!
