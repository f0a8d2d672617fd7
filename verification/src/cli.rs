//! The agent server's command line: vault roots given as arguments or, when
//! there are none, in the environment, each with a leading `~` expanded.

use vstd::prelude::*;
use crate::links::strings_view;
use crate::paths::{pieces, pieces_exec};
use crate::text::{chars_of, slice_of, string_of, trim, trim_vec, vec_eq};
use crate::vault::join_root;

verus! {

/// What a command line asks for.
#[derive(Debug, PartialEq, Eq)]
pub enum Invocation {
    /// Print usage and exit.
    Help,
    /// Print the version and exit.
    Version,
    /// Serve these vault roots; none means follow the desktop app.
    Serve(Vec<String>),
}

/// Why a command line was refused.
#[derive(Debug, PartialEq, Eq)]
pub enum ArgsError {
    /// `--vault` came last, with no path after it.
    MissingVaultPath,
    /// An argument that starts with `-` and is no option.
    UnknownOption(String),
}

/// The outcome of a command line, as values.
pub enum Parsed {
    Help,
    Version,
    Serve(Seq<Seq<char>>),
    MissingVaultPath,
    UnknownOption(Seq<char>),
}

pub open spec fn str_opt(o: Option<&str>) -> Option<Seq<char>> {
    match o {
        Some(s) => Some(s@),
        None => None,
    }
}

/// `PathBuf::join` with `/` separators: an absolute `p` replaces `base`.
pub open spec fn path_join(base: Seq<char>, p: Seq<char>) -> Seq<char> {
    if p.len() > 0 && p[0] == '/' {
        p
    } else {
        join_root(base, p)
    }
}

/// `~` alone, or `~/` and more.
pub open spec fn home_relative(t: Seq<char>) -> bool {
    t =~= seq!['~'] || (t.len() >= 2 && t[0] == '~' && t[1] == '/')
}

/// A path with surrounding whitespace trimmed and a leading `~` replaced by
/// the home directory, when one is known.
pub open spec fn expand_spec(path: Seq<char>, home: Option<Seq<char>>) -> Seq<char> {
    let t = trim(path);
    match home {
        Some(h) => if !home_relative(t) {
            t
        } else if t.len() == 1 {
            h
        } else {
            path_join(h, t.subrange(2, t.len() as int))
        },
        None => t,
    }
}

/// The comma-separated roots of the environment variable: each trimmed,
/// the empty ones dropped, the rest expanded.
pub open spec fn env_roots(ps: Seq<Seq<char>>, home: Option<Seq<char>>) -> Seq<Seq<char>>
    decreases ps.len(),
{
    if ps.len() == 0 {
        seq![]
    } else {
        let rest = env_roots(ps.drop_last(), home);
        if trim(ps.last()).len() > 0 {
            rest.push(expand_spec(trim(ps.last()), home))
        } else {
            rest
        }
    }
}

/// The arguments from `i` on, with `roots` collected so far.
pub open spec fn parse_from(
    args: Seq<Seq<char>>,
    i: int,
    roots: Seq<Seq<char>>,
    home: Option<Seq<char>>,
) -> Parsed
    decreases args.len() - i,
{
    if i < 0 || i >= args.len() {
        Parsed::Serve(roots)
    } else {
        let a = args[i];
        if a =~= seq!['-', 'h'] || a =~= seq!['-', '-', 'h', 'e', 'l', 'p'] {
            Parsed::Help
        } else if a =~= seq!['-', 'V'] || a =~= seq!['-', '-', 'v', 'e', 'r', 's', 'i', 'o', 'n'] {
            Parsed::Version
        } else if a =~= seq!['-', '-', 'v', 'a', 'u', 'l', 't'] {
            if i + 1 < args.len() {
                parse_from(args, i + 2, roots.push(expand_spec(args[i + 1], home)), home)
            } else {
                Parsed::MissingVaultPath
            }
        } else if a.len() > 0 && a[0] == '-' {
            Parsed::UnknownOption(a)
        } else {
            parse_from(args, i + 1, roots.push(expand_spec(a, home)), home)
        }
    }
}

/// The whole command line: help and version win where they come first, and
/// an empty root list falls back to the environment's.
pub open spec fn parse_spec(args: Seq<Seq<char>>, env: Option<Seq<char>>, home: Option<Seq<char>>) -> Parsed {
    match parse_from(args, 0, seq![], home) {
        Parsed::Serve(roots) => match env {
            Some(v) => if roots.len() == 0 {
                Parsed::Serve(env_roots(pieces(v, ','), home))
            } else {
                Parsed::Serve(roots)
            },
            None => Parsed::Serve(roots),
        },
        other => other,
    }
}

pub open spec fn parsed_of(r: Result<Invocation, ArgsError>) -> Parsed {
    match r {
        Ok(Invocation::Help) => Parsed::Help,
        Ok(Invocation::Version) => Parsed::Version,
        Ok(Invocation::Serve(v)) => Parsed::Serve(strings_view(v@)),
        Err(ArgsError::MissingVaultPath) => Parsed::MissingVaultPath,
        Err(ArgsError::UnknownOption(a)) => Parsed::UnknownOption(a@),
    }
}

fn path_join_exec(base: &[char], p: &[char]) -> (r: Vec<char>)
    ensures
        r@ == path_join(base@, p@),
{
    if p.len() > 0 && p[0] == '/' {
        return slice_of(p, 0, p.len());
    }
    let mut out = slice_of(base, 0, base.len());
    if out.len() > 0 && out[out.len() - 1] != '/' {
        out.push('/');
    }
    let mut more = slice_of(p, 0, p.len());
    out.append(&mut more);
    out
}

/// Expand a leading `~`, which clients routinely pass through unexpanded.
pub fn expand_home(path: &str, home: Option<&str>) -> (r: String)
    ensures
        r@ == expand_spec(path@, str_opt(home)),
{
    let t = trim_vec(chars_of(path).as_slice());
    let tilde_only = t.len() == 1 && t[0] == '~';
    let relative = tilde_only || (t.len() >= 2 && t[0] == '~' && t[1] == '/');
    proof {
        if tilde_only {
            assert(t@ =~= seq!['~']);
        }
    }
    match home {
        Some(h) => {
            if !relative {
                string_of(t.as_slice())
            } else if tilde_only {
                string_of(chars_of(h).as_slice())
            } else {
                let rest = slice_of(t.as_slice(), 2, t.len());
                let joined = path_join_exec(chars_of(h).as_slice(), rest.as_slice());
                string_of(joined.as_slice())
            }
        },
        None => string_of(t.as_slice()),
    }
}

fn roots_from_env(value: &str, home: Option<&str>) -> (r: Vec<String>)
    ensures
        strings_view(r@) == env_roots(pieces(value@, ','), str_opt(home)),
{
    let ps = pieces_exec(chars_of(value).as_slice(), ',');
    let ghost pv = ps@.map_values(|q: Vec<char>| q@);
    let mut out: Vec<String> = Vec::new();
    let mut k: usize = 0;
    while k < ps.len()
        invariant
            k <= ps@.len(),
            pv == ps@.map_values(|q: Vec<char>| q@),
            pv == pieces(value@, ','),
            strings_view(out@) == env_roots(pv.subrange(0, k as int), str_opt(home)),
        decreases ps@.len() - k,
    {
        let ghost before = strings_view(out@);
        assert(pv.subrange(0, k + 1).drop_last() =~= pv.subrange(0, k as int));
        assert(pv.subrange(0, k + 1).last() == ps@[k as int]@);
        let t = trim_vec(ps[k].as_slice());
        if t.len() > 0 {
            let e = expand_home(string_of(t.as_slice()).as_str(), home);
            out.push(e);
            assert(strings_view(out@) =~= before.push(e@));
        }
        k += 1;
    }
    assert(pv.subrange(0, k as int) =~= pv);
    out
}

/// Collect vault roots from the arguments, falling back to the value of the
/// environment variable that lists them.
pub fn parse_args(args: &[String], env_vaults: Option<&str>, home: Option<&str>) -> (r: Result<
    Invocation,
    ArgsError,
>)
    ensures
        parsed_of(r) == parse_spec(strings_view(args@), str_opt(env_vaults), str_opt(home)),
{
    let ghost av = strings_view(args@);
    let ghost hv = str_opt(home);
    let mut roots: Vec<String> = Vec::new();
    let mut i: usize = 0;
    proof {
        assert(strings_view(roots@) =~= Seq::<Seq<char>>::empty());
    }
    while i < args.len()
        invariant
            i <= args@.len(),
            av == strings_view(args@),
            hv == str_opt(home),
            parse_from(av, 0, seq![], hv) == parse_from(av, i as int, strings_view(roots@), hv),
        decreases args@.len() - i,
    {
        let a = chars_of(args[i].as_str());
        assert(a@ == av[i as int]);
        assert(['-', 'h']@ =~= seq!['-', 'h']);
        assert(['-', '-', 'h', 'e', 'l', 'p']@ =~= seq!['-', '-', 'h', 'e', 'l', 'p']);
        assert(['-', 'V']@ =~= seq!['-', 'V']);
        assert(['-', '-', 'v', 'e', 'r', 's', 'i', 'o', 'n']@ =~= seq!['-', '-', 'v', 'e', 'r', 's', 'i', 'o', 'n']);
        assert(['-', '-', 'v', 'a', 'u', 'l', 't']@ =~= seq!['-', '-', 'v', 'a', 'u', 'l', 't']);
        if vec_eq(a.as_slice(), &['-', 'h']) || vec_eq(a.as_slice(), &['-', '-', 'h', 'e', 'l', 'p']) {
            return Ok(Invocation::Help);
        }
        if vec_eq(a.as_slice(), &['-', 'V']) || vec_eq(
            a.as_slice(),
            &['-', '-', 'v', 'e', 'r', 's', 'i', 'o', 'n'],
        ) {
            return Ok(Invocation::Version);
        }
        let ghost before = strings_view(roots@);
        if vec_eq(a.as_slice(), &['-', '-', 'v', 'a', 'u', 'l', 't']) {
            if i + 1 >= args.len() {
                return Err(ArgsError::MissingVaultPath);
            }
            let e = expand_home(args[i + 1].as_str(), home);
            roots.push(e);
            assert(strings_view(roots@) =~= before.push(expand_spec(av[i + 1], hv)));
            i += 2;
        } else if a.len() > 0 && a[0] == '-' {
            return Err(ArgsError::UnknownOption(string_of(a.as_slice())));
        } else {
            let e = expand_home(args[i].as_str(), home);
            roots.push(e);
            assert(strings_view(roots@) =~= before.push(expand_spec(av[i as int], hv)));
            i += 1;
        }
    }
    if roots.len() == 0 {
        if let Some(v) = env_vaults {
            let from_env = roots_from_env(v, home);
            return Ok(Invocation::Serve(from_env));
        }
    }
    Ok(Invocation::Serve(roots))
}

} // verus!
