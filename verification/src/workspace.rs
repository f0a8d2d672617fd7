//! Several vaults served by one agent process: which vault a tool call means,
//! whether the open vaults can be told apart by name, and what following the
//! desktop app's vault does when the app switches.

use vstd::prelude::*;
use crate::links::strings_view;
use crate::sorting::distinct;
use crate::text::{chars_of, lowercase, string_of, to_lower, trim, trim_vec, vec_eq};
use crate::vault::{
    ascii_eq_ignore, ascii_eq_ignore_exec, components, components_exec, is_absolute, seqs_eq,
};

verus! {

/// Why no vault could be picked for a tool call.
#[derive(Debug, PartialEq, Eq)]
pub enum SelectError {
    /// Several vaults are open and the call named none. Carries the open
    /// vaults' names.
    NameRequired(Vec<String>),
    /// No open vault answers to the name. Carries the name asked for,
    /// trimmed, and the open vaults' names.
    UnknownVault(String, Vec<String>),
}

/// Why a set of vault roots cannot be served together.
#[derive(Debug, PartialEq, Eq)]
pub enum WorkspaceError {
    /// No vault root was given.
    NoVaultConfigured,
    /// Two vault folders share a name, ignoring case, so a name could not
    /// pick one of them.
    DuplicateNames,
}

/// What following the desktop app's vault calls for.
#[derive(Debug, PartialEq, Eq)]
pub enum FollowStep {
    /// The app has no vault open: close whatever is open and say so.
    NoVaultOpen,
    /// Already serving the app's vault: keep it, and its cached index.
    Keep,
    /// Open this vault in place of whatever was open.
    Open(String),
}

/// Two paths naming the same place: both absolute or both relative, with
/// the same components (`Path`'s `==`).
pub open spec fn same_path(a: Seq<char>, b: Seq<char>) -> bool {
    is_absolute(a) == is_absolute(b) && components(a) == components(b)
}

/// The names of open vaults given as `(name, root)`.
pub open spec fn names_of(vs: Seq<(String, String)>) -> Seq<Seq<char>> {
    vs.map_values(|v: (String, String)| v.0@)
}

/// The first vault from `k` on whose name is `needle`, ignoring ASCII case.
pub open spec fn find_name(vs: Seq<(String, String)>, needle: Seq<char>, k: int) -> Option<int>
    decreases vs.len() - k,
{
    if k < 0 || k >= vs.len() {
        None
    } else if ascii_eq_ignore(vs[k].0@, needle) {
        Some(k)
    } else {
        find_name(vs, needle, k + 1)
    }
}

/// The first vault from `k` on whose root is the path `needle`.
pub open spec fn find_root(vs: Seq<(String, String)>, needle: Seq<char>, k: int) -> Option<int>
    decreases vs.len() - k,
{
    if k < 0 || k >= vs.len() {
        None
    } else if same_path(vs[k].1@, needle) {
        Some(k)
    } else {
        find_root(vs, needle, k + 1)
    }
}

pub proof fn lemma_find_name(vs: Seq<(String, String)>, needle: Seq<char>, k: int)
    requires
        0 <= k,
    ensures
        match find_name(vs, needle, k) {
            Some(i) => k <= i < vs.len() && ascii_eq_ignore(vs[i].0@, needle),
            None => true,
        },
    decreases vs.len() - k,
{
    if k < vs.len() && !ascii_eq_ignore(vs[k].0@, needle) {
        lemma_find_name(vs, needle, k + 1);
    }
}

pub proof fn lemma_find_root(vs: Seq<(String, String)>, needle: Seq<char>, k: int)
    requires
        0 <= k,
    ensures
        match find_root(vs, needle, k) {
            Some(i) => k <= i < vs.len() && same_path(vs[i].1@, needle),
            None => true,
        },
    decreases vs.len() - k,
{
    if k < vs.len() && !same_path(vs[k].1@, needle) {
        lemma_find_root(vs, needle, k + 1);
    }
}

fn copy_names(vaults: &Vec<(String, String)>) -> (r: Vec<String>)
    ensures
        strings_view(r@) == names_of(vaults@),
{
    let mut out: Vec<String> = Vec::new();
    let mut k: usize = 0;
    while k < vaults.len()
        invariant
            k <= vaults@.len(),
            strings_view(out@) == names_of(vaults@).subrange(0, k as int),
        decreases vaults@.len() - k,
    {
        let ghost before = strings_view(out@);
        let c = string_of(chars_of(vaults[k].0.as_str()).as_slice());
        assert(names_of(vaults@)[k as int] == vaults@[k as int].0@);
        out.push(c);
        assert(strings_view(out@) =~= before.push(c@));
        assert(strings_view(out@) =~= names_of(vaults@).subrange(0, k + 1));
        k += 1;
    }
    assert(names_of(vaults@).subrange(0, k as int) =~= names_of(vaults@));
    out
}

fn same_path_exec(a: &[char], b: &[char]) -> (r: bool)
    ensures
        r == same_path(a@, b@),
{
    let abs_a = a.len() > 0 && a[0] == '/';
    let abs_b = b.len() > 0 && b[0] == '/';
    if abs_a != abs_b {
        return false;
    }
    let ca = components_exec(a);
    let cb = components_exec(b);
    proof {
        assert(ca@.map_values(|q: Vec<char>| q@).len() == ca@.len());
        assert(cb@.map_values(|q: Vec<char>| q@).len() == cb@.len());
    }
    if ca.len() != cb.len() {
        return false;
    }
    let r = seqs_eq(&ca, &cb, ca.len());
    proof {
        let av = ca@.map_values(|q: Vec<char>| q@);
        let bv = cb@.map_values(|q: Vec<char>| q@);
        assert(av.subrange(0, av.len() as int) =~= av);
        assert(bv.subrange(0, bv.len() as int) =~= bv);
    }
    r
}

/// Pick the vault a tool call refers to, among open vaults given as
/// `(name, root)`. Without a name there must be exactly one vault; a name
/// matches a vault's name ignoring ASCII case, or else its root path.
pub fn select(vaults: &Vec<(String, String)>, requested: Option<&str>) -> (r: Result<usize, SelectError>)
    ensures
        match requested {
            None => if vaults@.len() == 1 {
                r == Ok::<usize, SelectError>(0)
            } else {
                r matches Err(SelectError::NameRequired(ns)) && strings_view(ns@) == names_of(
                    vaults@,
                )
            },
            Some(name) => match find_name(vaults@, trim(name@), 0) {
                Some(i) => r == Ok::<usize, SelectError>(i as usize),
                None => match find_root(vaults@, trim(name@), 0) {
                    Some(i) => r == Ok::<usize, SelectError>(i as usize),
                    None => r matches Err(SelectError::UnknownVault(n, ns)) && n@ == trim(name@)
                        && strings_view(ns@) == names_of(vaults@),
                },
            },
        },
{
    match requested {
        None => {
            if vaults.len() == 1 {
                Ok(0)
            } else {
                Err(SelectError::NameRequired(copy_names(vaults)))
            }
        },
        Some(name) => {
            let needle = trim_vec(chars_of(name).as_slice());
            let ghost nv = needle@;
            let mut k: usize = 0;
            while k < vaults.len()
                invariant
                    k <= vaults@.len(),
                    nv == needle@,
                    nv == trim(name@),
                    requested == Some(name),
                    find_name(vaults@, nv, 0) == find_name(vaults@, nv, k as int),
                decreases vaults@.len() - k,
            {
                if ascii_eq_ignore_exec(chars_of(vaults[k].0.as_str()).as_slice(), needle.as_slice()) {
                    assert(find_name(vaults@, nv, k as int) == Some(k as int));
                    return Ok(k);
                }
                k += 1;
            }
            let mut j: usize = 0;
            while j < vaults.len()
                invariant
                    j <= vaults@.len(),
                    nv == needle@,
                    nv == trim(name@),
                    requested == Some(name),
                    find_name(vaults@, nv, 0) is None,
                    find_root(vaults@, nv, 0) == find_root(vaults@, nv, j as int),
                decreases vaults@.len() - j,
            {
                if same_path_exec(chars_of(vaults[j].1.as_str()).as_slice(), needle.as_slice()) {
                    assert(find_root(vaults@, nv, j as int) == Some(j as int));
                    return Ok(j);
                }
                j += 1;
            }
            Err(SelectError::UnknownVault(string_of(needle.as_slice()), copy_names(vaults)))
        },
    }
}

/// The open vaults' names, lowercased.
pub open spec fn lowered(names: Seq<String>) -> Seq<Seq<char>> {
    names.map_values(|n: String| lowercase(n@))
}

/// Check that vault roots can be served together: there is at least one,
/// and no two of their folder names differ only in case.
pub fn check_names(names: &Vec<String>) -> (r: Result<(), WorkspaceError>)
    ensures
        r == (if names@.len() == 0 {
            Err(WorkspaceError::NoVaultConfigured)
        } else if distinct(lowered(names@)) {
            Ok(())
        } else {
            Err(WorkspaceError::DuplicateNames)
        }),
{
    if names.len() == 0 {
        return Err(WorkspaceError::NoVaultConfigured);
    }
    let ghost lv = lowered(names@);
    let mut low: Vec<Vec<char>> = Vec::new();
    let mut k: usize = 0;
    while k < names.len()
        invariant
            k <= names@.len(),
            lv == lowered(names@),
            low@.len() == k,
            forall|m: int| 0 <= m < k ==> (#[trigger] low@[m])@ == lv[m],
        decreases names@.len() - k,
    {
        low.push(to_lower(chars_of(names[k].as_str()).as_slice()));
        k += 1;
    }
    let mut i: usize = 0;
    while i < low.len()
        invariant
            i <= low@.len() == lv.len(),
            lv == lowered(names@),
            names@.len() > 0,
            forall|m: int| 0 <= m < low@.len() ==> (#[trigger] low@[m])@ == lv[m],
            forall|a: int, b: int| 0 <= a < i && a < b < lv.len() ==> #[trigger] lv[a] != #[trigger] lv[b],
        decreases low@.len() - i,
    {
        let mut j: usize = i + 1;
        while j < low.len()
            invariant
                i < low@.len() == lv.len(),
                lv == lowered(names@),
                names@.len() > 0,
                i + 1 <= j <= low@.len(),
                forall|m: int| 0 <= m < low@.len() ==> (#[trigger] low@[m])@ == lv[m],
                forall|a: int, b: int| 0 <= a < i && a < b < lv.len() ==> #[trigger] lv[a] != #[trigger] lv[b],
                forall|b: int| i < b < j ==> lv[i as int] != #[trigger] lv[b],
            decreases low@.len() - j,
        {
            if vec_eq(low[i].as_slice(), low[j].as_slice()) {
                assert(lv[i as int] == lv[j as int]);
                assert(!distinct(lv));
                return Err(WorkspaceError::DuplicateNames);
            }
            j += 1;
        }
        i += 1;
    }
    Ok(())
}

/// What to do, in follow-the-app mode, given the root being served (if any)
/// and the vault the app reports open (if any).
pub fn follow_step(current: Option<&str>, active: Option<&str>) -> (r: FollowStep)
    ensures
        match active {
            None => r == FollowStep::NoVaultOpen,
            Some(a) => match current {
                Some(c) => if same_path(c@, a@) {
                    r == FollowStep::Keep
                } else {
                    r matches FollowStep::Open(p) && p@ == a@
                },
                None => r matches FollowStep::Open(p) && p@ == a@,
            },
        },
{
    match active {
        None => FollowStep::NoVaultOpen,
        Some(a) => {
            let ac = chars_of(a);
            match current {
                Some(c) => {
                    if same_path_exec(chars_of(c).as_slice(), ac.as_slice()) {
                        return FollowStep::Keep;
                    }
                },
                None => {},
            }
            FollowStep::Open(string_of(ac.as_slice()))
        },
    }
}

/// Whether a cached link index must be rebuilt: there is none, or it was
/// built from another state of the vault than the current fingerprint.
pub fn index_is_stale(cached: Option<u64>, current: u64) -> (r: bool)
    ensures
        r == match cached {
            Some(f) => f != current,
            None => true,
        },
{
    match cached {
        Some(f) => f != current,
        None => true,
    }
}

/// Whether a tool call may leave the vault unnamed: when following the app
/// (one vault at a time), or when exactly one vault is open.
pub fn is_single(follows_app: bool, open: usize) -> (r: bool)
    ensures
        r == (follows_app || open == 1),
{
    follows_app || open == 1
}

} // verus!
