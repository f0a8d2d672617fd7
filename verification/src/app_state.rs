//! The handshake between the desktop app and the MCP server.
//!
//! Both processes are independent — the server runs whether or not the app
//! is open — but when both are running they should be looking at the same
//! vault. The app records which vault is open in a small file under the
//! user's home directory, and the server reads it.
//!
//! Location is `~/.intentio/knowledge/state.json`. This module computes that
//! location and every change made to the recorded state; reading and writing
//! the file is left to the application.

use vstd::prelude::*;

use crate::index::copy_string;
use crate::links::{opt_view, strings_view};
use crate::text::{chars_of, string_of, vec_eq};
use crate::vault::join_root;

verus! {

/// The shared state file's contents.
pub struct AppState {
    /// Absolute path of the vault currently open in the app, if any.
    pub active_vault: Option<String>,
    /// Recently opened vaults, most recent first.
    pub recent_vaults: Vec<String>,
    /// When the app last wrote this, in milliseconds since the Unix epoch.
    pub updated_at: u64,
    /// Git sync preferences, keyed by absolute vault path.
    pub sync: Vec<(String, VaultSync)>,
}

/// How one vault should keep itself in step with its remote.
#[derive(Debug, Clone, Copy, PartialEq, Eq)]
pub struct VaultSync {
    pub enabled: bool,
    /// How often to sync while the app is open.
    pub interval_seconds: u64,
}

/// Three minutes: often enough that the other person is not waiting, rare
/// enough that the history stays readable.
pub fn default_interval_seconds() -> (r: u64)
    ensures
        r == 180,
{
    180
}

impl Default for VaultSync {
    fn default() -> (r: VaultSync)
        ensures
            !r.enabled,
            r.interval_seconds == 180,
    {
        VaultSync { enabled: false, interval_seconds: default_interval_seconds() }
    }
}

impl Default for AppState {
    fn default() -> (r: AppState)
        ensures
            r.active_vault is None,
            r.recent_vaults@.len() == 0,
            r.updated_at == 0,
            r.sync@.len() == 0,
    {
        AppState { active_vault: None, recent_vaults: Vec::new(), updated_at: 0, sync: Vec::new() }
    }
}

/// How many vaults the history keeps.
pub const RECENT_LIMIT: usize = 8;

pub open spec fn dot_intentio() -> Seq<char> {
    seq!['.', 'i', 'n', 't', 'e', 'n', 't', 'i', 'o']
}

pub open spec fn word_knowledge() -> Seq<char> {
    seq!['k', 'n', 'o', 'w', 'l', 'e', 'd', 'g', 'e']
}

pub open spec fn word_state_json() -> Seq<char> {
    seq!['s', 't', 'a', 't', 'e', '.', 'j', 's', 'o', 'n']
}

/// `~/.intentio/knowledge` below a non-empty home directory.
pub open spec fn state_dir_spec(home: Option<Seq<char>>) -> Option<Seq<char>> {
    match home {
        Some(h) => if h.len() > 0 {
            Some(join_root(join_root(h, dot_intentio()), word_knowledge()))
        } else {
            None
        },
        None => None,
    }
}

fn join_exec(base: &[char], rel: &[char]) -> (r: Vec<char>)
    ensures
        r@ == join_root(base@, rel@),
{
    let mut out = crate::text::slice_of(base, 0, base.len());
    if out.len() > 0 && out[out.len() - 1] != '/' {
        out.push('/');
    }
    let mut more = crate::text::slice_of(rel, 0, rel.len());
    out.append(&mut more);
    out
}

/// Directory holding the shared state, below the home directory (`HOME`, or
/// `USERPROFILE` where there is none); none when the home is unknown or
/// empty.
pub fn state_dir(home: Option<&str>) -> (r: Option<String>)
    ensures
        opt_view(r) == state_dir_spec(
            match home {
                Some(h) => Some(h@),
                None => None,
            },
        ),
{
    match home {
        Some(h) => {
            let hc = chars_of(h);
            if hc.len() == 0 {
                return None;
            }
            let a = ['.', 'i', 'n', 't', 'e', 'n', 't', 'i', 'o'];
            let b = ['k', 'n', 'o', 'w', 'l', 'e', 'd', 'g', 'e'];
            assert(a@ =~= dot_intentio());
            assert(b@ =~= word_knowledge());
            let d = join_exec(join_exec(hc.as_slice(), &a).as_slice(), &b);
            Some(string_of(d.as_slice()))
        },
        None => None,
    }
}

/// Path of the shared state file.
pub fn state_path(home: Option<&str>) -> (r: Option<String>)
    ensures
        opt_view(r) == match state_dir_spec(
            match home {
                Some(h) => Some(h@),
                None => None,
            },
        ) {
            Some(d) => Some(join_root(d, word_state_json())),
            None => None,
        },
{
    match state_dir(home) {
        Some(d) => {
            let f = ['s', 't', 'a', 't', 'e', '.', 'j', 's', 'o', 'n'];
            assert(f@ =~= word_state_json());
            Some(string_of(join_exec(chars_of(d.as_str()).as_slice(), &f).as_slice()))
        },
        None => None,
    }
}

/// The vault the app recorded as open, if any. (Whether it still exists on
/// disk is for the caller to check.)
pub fn active_vault(state: Option<&AppState>) -> (r: Option<String>)
    ensures
        opt_view(r) == match state {
            Some(s) => opt_view(s.active_vault),
            None => None,
        },
{
    match state {
        Some(s) => match &s.active_vault {
            Some(v) => Some(copy_string(v)),
            None => None,
        },
        None => None,
    }
}

// ---------------------------------------------------------------------------
// recording the active vault
// ---------------------------------------------------------------------------

/// `s` with every `x` removed.
pub open spec fn without(s: Seq<Seq<char>>, x: Seq<char>) -> Seq<Seq<char>>
    decreases s.len(),
{
    if s.len() == 0 {
        seq![]
    } else if s.last() == x {
        without(s.drop_last(), x)
    } else {
        without(s.drop_last(), x).push(s.last())
    }
}

/// The history after opening `v`: `v` first, then the earlier entries
/// without it, at most eight in all.
pub open spec fn recent_after(recent: Seq<Seq<char>>, v: Seq<char>) -> Seq<Seq<char>> {
    let r = seq![v] + without(recent, v);
    if r.len() > 8 {
        r.subrange(0, 8)
    } else {
        r
    }
}

proof fn lemma_contains_push(a: Seq<Seq<char>>, y: Seq<char>, t: Seq<char>)
    ensures
        a.push(y).contains(t) <==> (a.contains(t) || y == t),
{
    if a.push(y).contains(t) {
        let i = choose|i: int| 0 <= i < a.push(y).len() && a.push(y)[i] == t;
        if i < a.len() {
            assert(a[i] == t);
        }
    }
    if a.contains(t) {
        let i = choose|i: int| 0 <= i < a.len() && a[i] == t;
        assert(a.push(y)[i] == t);
    }
    if y == t {
        assert(a.push(y)[a.len() as int] == t);
    }
}

pub proof fn lemma_without(s: Seq<Seq<char>>, x: Seq<char>)
    ensures
        !without(s, x).contains(x),
        forall|t: Seq<char>| t != x ==> (#[trigger] without(s, x).contains(t) <==> s.contains(t)),
        without(s, x).len() <= s.len(),
    decreases s.len(),
{
    if s.len() > 0 {
        lemma_without(s.drop_last(), x);
        let w = without(s.drop_last(), x);
        assert(s =~= s.drop_last().push(s.last()));
        assert forall|t: Seq<char>| t != x implies (#[trigger] without(s, x).contains(t)
            <==> s.contains(t)) by {
            lemma_contains_push(s.drop_last(), s.last(), t);
            lemma_contains_push(w, s.last(), t);
        }
        lemma_contains_push(w, s.last(), x);
    }
}

/// Opening a vault puts it at the front of the history, once, and keeps the
/// history to eight entries.
pub proof fn lemma_recent_after(recent: Seq<Seq<char>>, v: Seq<char>)
    ensures
        recent_after(recent, v).len() <= 8,
        recent_after(recent, v)[0] == v,
        forall|i: int| 1 <= i < recent_after(recent, v).len() ==> #[trigger] recent_after(recent, v)[i] != v,
{
    lemma_without(recent, v);
    let w = without(recent, v);
    let r = seq![v] + w;
    assert forall|i: int| 1 <= i < r.len() implies #[trigger] r[i] != v by {
        assert(r[i] == w[i - 1]);
        assert(w.contains(w[i - 1]));
    }
}

fn without_exec(s: &Vec<String>, x: &String) -> (r: Vec<String>)
    ensures
        strings_view(r@) == without(strings_view(s@), x@),
{
    let ghost sv = strings_view(s@);
    let mut out: Vec<String> = Vec::new();
    let mut k: usize = 0;
    while k < s.len()
        invariant
            k <= s@.len(),
            sv == strings_view(s@),
            strings_view(out@) == without(sv.subrange(0, k as int), x@),
        decreases s@.len() - k,
    {
        let ghost before = strings_view(out@);
        assert(sv.subrange(0, k + 1).drop_last() =~= sv.subrange(0, k as int));
        assert(sv.subrange(0, k + 1).last() == s@[k as int]@);
        if !vec_eq(chars_of(s[k].as_str()).as_slice(), chars_of(x.as_str()).as_slice()) {
            out.push(copy_string(&s[k]));
            assert(strings_view(out@) =~= before.push(s@[k as int]@));
        }
        k += 1;
    }
    assert(sv.subrange(0, k as int) =~= sv);
    out
}

fn same_opt(a: &Option<String>, b: &Option<String>) -> (r: bool)
    ensures
        r == (opt_view(*a) == opt_view(*b)),
{
    match (a, b) {
        (Some(x), Some(y)) => vec_eq(chars_of(x.as_str()).as_slice(), chars_of(y.as_str()).as_slice()),
        (None, None) => true,
        _ => false,
    }
}

impl AppState {
    /// Record the vault the app has open; `None` clears it. Returns whether
    /// anything changed: when the vault is already the recorded one the state
    /// is left alone (timestamp included), so the file need not be rewritten.
    pub fn record_active_vault(&mut self, next: Option<String>, now_millis: u64) -> (changed: bool)
        ensures
            changed == (opt_view(old(self).active_vault) != opt_view(next)),
            !changed ==> opt_view(final(self).active_vault) == opt_view(old(self).active_vault)
                && strings_view(final(self).recent_vaults@) == strings_view(old(self).recent_vaults@)
                && final(self).updated_at == old(self).updated_at,
            changed ==> opt_view(final(self).active_vault) == opt_view(next)
                && final(self).updated_at == now_millis
                && strings_view(final(self).recent_vaults@) == match opt_view(next) {
                    Some(v) => recent_after(strings_view(old(self).recent_vaults@), v),
                    None => strings_view(old(self).recent_vaults@),
                },
            final(self).sync@ == old(self).sync@,
    {
        if same_opt(&self.active_vault, &next) {
            return false;
        }
        match &next {
            Some(current) => {
                let kept = without_exec(&self.recent_vaults, current);
                let mut recent: Vec<String> = Vec::new();
                recent.push(copy_string(current));
                let mut rest = kept;
                recent.append(&mut rest);
                let ghost rv = strings_view(recent@);
                assert(rv =~= seq![current@] + without(strings_view(self.recent_vaults@), current@));
                recent.truncate(RECENT_LIMIT);
                assert(strings_view(recent@) =~= recent_after(strings_view(self.recent_vaults@), current@));
                self.recent_vaults = recent;
            },
            None => {},
        }
        self.active_vault = next;
        self.updated_at = now_millis;
        true
    }
}

// ---------------------------------------------------------------------------
// sync preferences
// ---------------------------------------------------------------------------

pub open spec fn sync_view(m: Seq<(String, VaultSync)>) -> Seq<(Seq<char>, VaultSync)> {
    m.map_values(|e: (String, VaultSync)| (e.0@, e.1))
}

/// The preference recorded for `key`: its first entry.
pub open spec fn sync_get(m: Seq<(Seq<char>, VaultSync)>, key: Seq<char>) -> Option<VaultSync>
    decreases m.len(),
{
    if m.len() == 0 {
        None
    } else if m[0].0 == key {
        Some(m[0].1)
    } else {
        sync_get(m.drop_first(), key)
    }
}

/// A vault's sync preference, falling back to the default (off, every three
/// minutes).
pub fn sync_settings(state: Option<&AppState>, vault: &str) -> (r: VaultSync)
    ensures
        match state {
            Some(s) => match sync_get(sync_view(s.sync@), vault@) {
                Some(v) => r == v,
                None => !r.enabled && r.interval_seconds == 180,
            },
            None => !r.enabled && r.interval_seconds == 180,
        },
{
    match state {
        Some(s) => match position_of(&s.sync, vault) {
            Some(i) => s.sync[i].1,
            None => VaultSync::default(),
        },
        None => VaultSync::default(),
    }
}

fn position_of(m: &Vec<(String, VaultSync)>, key: &str) -> (r: Option<usize>)
    ensures
        match r {
            Some(i) => i < m@.len() && sync_get(sync_view(m@), key@) == Some(m@[i as int].1)
                && m@[i as int].0@ == key@ && forall|j: int| 0 <= j < i ==> (#[trigger] m@[j]).0@ != key@,
            None => sync_get(sync_view(m@), key@) is None,
        },
{
    let kc = chars_of(key);
    let ghost mv = sync_view(m@);
    assert(mv.subrange(0, mv.len() as int) =~= mv);
    let mut k: usize = 0;
    while k < m.len()
        invariant
            k <= m@.len(),
            mv == sync_view(m@),
            kc@ == key@,
            sync_get(mv, key@) == sync_get(mv.subrange(k as int, mv.len() as int), key@),
            forall|j: int| 0 <= j < k ==> (#[trigger] m@[j]).0@ != key@,
        decreases m@.len() - k,
    {
        let ghost rest = mv.subrange(k as int, mv.len() as int);
        assert(rest[0] == (m@[k as int].0@, m@[k as int].1));
        assert(rest.drop_first() =~= mv.subrange(k + 1, mv.len() as int));
        if vec_eq(chars_of(m[k].0.as_str()).as_slice(), kc.as_slice()) {
            return Some(k);
        }
        k += 1;
    }
    None
}

impl AppState {
    /// Record how a vault should sync, leaving every other preference and
    /// the rest of the state as they were.
    pub fn record_sync_settings(&mut self, vault: &str, settings: VaultSync, now_millis: u64)
        ensures
            sync_get(sync_view(final(self).sync@), vault@) == Some(settings),
            forall|k: Seq<char>|
                k != vault@ ==> sync_get(sync_view(final(self).sync@), k) == sync_get(
                    sync_view(old(self).sync@),
                    k,
                ),
            opt_view(final(self).active_vault) == opt_view(old(self).active_vault),
            strings_view(final(self).recent_vaults@) == strings_view(old(self).recent_vaults@),
            final(self).updated_at == now_millis,
    {
        let ghost before = sync_view(self.sync@);
        match position_of(&self.sync, vault) {
            Some(i) => {
                let key = copy_string(&self.sync[i].0);
                self.sync.set(i, (key, settings));
                proof {
                    assert forall|j: int| 0 <= j < i implies (#[trigger] before[j]).0 != vault@ by {
                        assert(before[j].0 == self.sync@[j].0@);
                    }
                    lemma_sync_set(before, i as int, settings, vault@);
                    assert(sync_view(self.sync@) =~= before.update(i as int, (before[i as int].0, settings)));
                }
            },
            None => {
                self.sync.push((String::from_str(vault), settings));
                proof {
                    lemma_sync_push(before, vault@, settings);
                    assert(sync_view(self.sync@) =~= before.push((vault@, settings)));
                }
            },
        }
        self.updated_at = now_millis;
    }
}

proof fn lemma_sync_set(m: Seq<(Seq<char>, VaultSync)>, i: int, s: VaultSync, key: Seq<char>)
    requires
        0 <= i < m.len(),
        m[i].0 == key,
        forall|j: int| 0 <= j < i ==> (#[trigger] m[j]).0 != key,
    ensures
        sync_get(m.update(i, (key, s)), key) == Some(s),
        forall|k: Seq<char>| k != key ==> sync_get(m.update(i, (key, s)), k) == sync_get(m, k),
    decreases m.len(),
{
    let u = m.update(i, (key, s));
    if i > 0 {
        assert forall|j: int| 0 <= j < i - 1 implies (#[trigger] m.drop_first()[j]).0 != key by {
            assert(m.drop_first()[j] == m[j + 1]);
        }
        assert(m[0].0 != key);
        lemma_sync_set(m.drop_first(), i - 1, s, key);
        assert(u.drop_first() =~= m.drop_first().update(i - 1, (key, s)));
        assert(u[0] == m[0]);
        assert forall|k: Seq<char>| k != key implies sync_get(u, k) == sync_get(m, k) by {
            if m[0].0 != k {
                assert(sync_get(u, k) == sync_get(u.drop_first(), k));
                assert(sync_get(m, k) == sync_get(m.drop_first(), k));
                assert(sync_get(m.drop_first().update(i - 1, (key, s)), k) == sync_get(
                    m.drop_first(),
                    k,
                ));
            }
        }
    } else {
        assert(u.drop_first() =~= m.drop_first());
        assert(u[0].0 == key);
        assert forall|k: Seq<char>| k != key implies sync_get(u, k) == sync_get(m, k) by {
            assert(sync_get(u, k) == sync_get(u.drop_first(), k));
            assert(sync_get(m, k) == sync_get(m.drop_first(), k));
        }
    }
}

proof fn lemma_sync_push(m: Seq<(Seq<char>, VaultSync)>, key: Seq<char>, s: VaultSync)
    requires
        sync_get(m, key) is None,
    ensures
        sync_get(m.push((key, s)), key) == Some(s),
        forall|k: Seq<char>| k != key ==> sync_get(m.push((key, s)), k) == sync_get(m, k),
    decreases m.len(),
{
    let p = m.push((key, s));
    if m.len() > 0 {
        lemma_sync_push(m.drop_first(), key, s);
        assert(p.drop_first() =~= m.drop_first().push((key, s)));
        assert(p[0] == m[0]);
        assert forall|k: Seq<char>| k != key implies sync_get(p, k) == sync_get(m, k) by {
            if m[0].0 != k {
                assert(sync_get(p, k) == sync_get(p.drop_first(), k));
                assert(sync_get(m, k) == sync_get(m.drop_first(), k));
                assert(sync_get(m.drop_first().push((key, s)), k) == sync_get(m.drop_first(), k));
            }
        }
    } else {
        assert(p.drop_first() =~= Seq::<(Seq<char>, VaultSync)>::empty());
        assert(p[0].0 == key);
        assert forall|k: Seq<char>| k != key implies sync_get(p, k) == sync_get(m, k) by {
            assert(sync_get(p, k) == sync_get(p.drop_first(), k));
        }
    }
}

/// Whether a scheduled sync is due: sync is on for the vault, and at least
/// its interval has passed since the last run.
pub fn sync_due(settings: VaultSync, elapsed_seconds: u64) -> (r: bool)
    ensures
        r == (settings.enabled && elapsed_seconds >= settings.interval_seconds),
{
    settings.enabled && elapsed_seconds >= settings.interval_seconds
}


} // verus!
