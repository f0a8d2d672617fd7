//! Keeping a vault in step with a Git remote.
//!
//! The application shells out to the installed `git`; this module decides
//! what to run next and what each answer means. The rules it follows, in
//! order of importance:
//!
//! 1. Never resolve a conflict. A rebase that stops is aborted so the working
//!    tree is left exactly as it was, and sync pauses until a person fixes it.
//! 2. Never force anything. No `--force`, no history rewriting.
//! 3. Never touch a repository that is mid-operation.
//! 4. Never create a repository.

use vstd::prelude::*;

use crate::index::copy_string;
use crate::links::opt_view;
use crate::text::{chars_of, contains, contains_seq, is_whitespace, is_ws, string_of};
use crate::yaml::{parse_i64, parse_i64_exec};

verus! {

/// What the app can tell about a vault's relationship with Git.
pub struct SyncStatus {
    pub is_repo: bool,
    pub has_remote: bool,
    pub branch: Option<String>,
    /// Uncommitted changes in the working tree.
    pub dirty: bool,
    pub ahead: u32,
    pub behind: u32,
    /// Set when syncing cannot safely proceed, with the reason to show.
    pub blocked: Option<String>,
}

/// What one sync attempt did.
pub struct SyncOutcome {
    /// Whether anything was committed, pulled or pushed.
    pub changed: bool,
    pub message: String,
    pub blocked: Option<String>,
}

/// What `git` answered to each question `status` asks, output trimmed;
/// `Err` carries what it printed when it failed.
pub struct GitProbe {
    /// `rev-parse --is-inside-work-tree` succeeded.
    pub inside_work_tree: bool,
    /// `remote`.
    pub remote: Result<String, String>,
    /// `rev-parse --abbrev-ref HEAD`.
    pub branch: Result<String, String>,
    /// `status --porcelain`.
    pub porcelain: Result<String, String>,
    /// `rev-list --left-right --count @{upstream}...HEAD`.
    pub counts: Result<String, String>,
    /// A rebase, merge or cherry-pick is under way in the repository.
    pub operation_in_progress: bool,
}

// ---------------------------------------------------------------------------
// reading `git`'s answers
// ---------------------------------------------------------------------------

/// Start of the next whitespace-separated word at or after `i`.
pub open spec fn word_start(s: Seq<char>, i: int) -> int
    decreases s.len() - i,
{
    if i < 0 || i >= s.len() || !is_ws(s[i]) {
        i
    } else {
        word_start(s, i + 1)
    }
}

/// End of the word that starts at `i`.
pub open spec fn word_end(s: Seq<char>, i: int) -> int
    decreases s.len() - i,
{
    if i < 0 || i >= s.len() || is_ws(s[i]) {
        i
    } else {
        word_end(s, i + 1)
    }
}

proof fn lemma_word_bounds(s: Seq<char>, i: int)
    requires
        0 <= i <= s.len(),
    ensures
        i <= word_start(s, i) <= s.len(),
        word_start(s, i) <= word_end(s, word_start(s, i)) <= s.len(),
    decreases s.len() - i,
{
    if i < s.len() && is_ws(s[i]) {
        lemma_word_bounds(s, i + 1);
    } else {
        lemma_word_end(s, i);
    }
}

proof fn lemma_word_end(s: Seq<char>, i: int)
    requires
        0 <= i <= s.len(),
    ensures
        i <= word_end(s, i) <= s.len(),
    decreases s.len() - i,
{
    if i < s.len() && !is_ws(s[i]) {
        lemma_word_end(s, i + 1);
    }
}

/// The first two whitespace-separated words (`split_whitespace`), where
/// present.
pub open spec fn first_two_words(s: Seq<char>) -> (Option<Seq<char>>, Option<Seq<char>>) {
    let a = word_start(s, 0);
    let ae = word_end(s, a);
    let b = word_start(s, ae);
    let be = word_end(s, b);
    (
        if a < s.len() { Some(s.subrange(a, ae)) } else { None },
        if b < s.len() { Some(s.subrange(b, be)) } else { None },
    )
}

/// `u32::from_str`: an optional `+`, then one or more ASCII digits, in range.
pub open spec fn parse_u32(t: Seq<char>) -> Option<u32> {
    if t.len() > 0 && t[0] == '-' {
        None
    } else {
        match parse_i64(t) {
            Some(v) => if 0 <= v <= u32::MAX {
                Some(v as u32)
            } else {
                None
            },
            None => None,
        }
    }
}

/// A count word read as a number, 0 when absent or unreadable.
pub open spec fn count_or_zero(w: Option<Seq<char>>) -> u32 {
    match w {
        Some(t) => match parse_u32(t) {
            Some(v) => v,
            None => 0,
        },
        None => 0,
    }
}

pub open spec fn msg_in_progress_here() -> Seq<char> {
    "A rebase or merge is already in progress here."@
}

pub open spec fn msg_no_remote() -> Seq<char> {
    "This vault has no Git remote to sync with."@
}

pub open spec fn nonempty_ok(r: Result<String, String>) -> bool {
    match r {
        Ok(out) => out@.len() > 0,
        Err(_) => false,
    }
}

/// `(behind, ahead)` from the upstream comparison: "behind<TAB>ahead".
pub open spec fn counts_of(r: Result<String, String>) -> (u32, u32) {
    match r {
        Ok(c) => (count_or_zero(first_two_words(c@).0), count_or_zero(first_two_words(c@).1)),
        Err(_) => (0, 0),
    }
}

fn word_start_exec(s: &[char], i: usize) -> (r: usize)
    requires
        i <= s@.len(),
    ensures
        r == word_start(s@, i as int),
        i <= r <= s@.len(),
{
    let mut k = i;
    while k < s.len() && is_whitespace(s[k])
        invariant
            i <= k <= s@.len(),
            word_start(s@, k as int) == word_start(s@, i as int),
        decreases s@.len() - k,
    {
        k += 1;
    }
    k
}

fn word_end_exec(s: &[char], i: usize) -> (r: usize)
    requires
        i <= s@.len(),
    ensures
        r == word_end(s@, i as int),
        i <= r <= s@.len(),
{
    let mut k = i;
    while k < s.len() && !is_whitespace(s[k])
        invariant
            i <= k <= s@.len(),
            word_end(s@, k as int) == word_end(s@, i as int),
        decreases s@.len() - k,
    {
        k += 1;
    }
    k
}

fn parse_u32_exec(t: &[char]) -> (r: Option<u32>)
    ensures
        r == parse_u32(t@),
{
    if t.len() > 0 && t[0] == '-' {
        return None;
    }
    match parse_i64_exec(t) {
        Some(v) => {
            if 0 <= v && v <= 0xffff_ffff {
                Some(v as u32)
            } else {
                None
            }
        },
        None => None,
    }
}

fn count_or_zero_exec(s: &[char], a: usize, b: usize) -> (r: u32)
    requires
        a <= b <= s@.len(),
    ensures
        r == count_or_zero(if a < s@.len() { Some(s@.subrange(a as int, b as int)) } else { None }),
{
    if a < s.len() {
        match parse_u32_exec(crate::text::slice_of(s, a, b).as_slice()) {
            Some(v) => v,
            None => 0,
        }
    } else {
        0
    }
}

fn text_of(s: &str) -> (r: String)
    ensures
        r@ == s@,
{
    string_of(chars_of(s).as_slice())
}

/// What `git` says of a vault: whether it is a repository with a remote, its
/// branch, whether the tree is dirty, how far it is ahead of and behind its
/// upstream, and what, if anything, blocks a sync.
pub fn status(probe: &GitProbe) -> (r: SyncStatus)
    ensures
        !probe.inside_work_tree ==> !r.is_repo && !r.has_remote && r.branch is None && !r.dirty
            && r.ahead == 0 && r.behind == 0 && r.blocked is None,
        probe.inside_work_tree ==> {
            &&& r.is_repo
            &&& r.has_remote == nonempty_ok(probe.remote)
            &&& opt_view(r.branch) == match probe.branch {
                Ok(b) => Some(b@),
                Err(_) => None,
            }
            &&& r.dirty == nonempty_ok(probe.porcelain)
            &&& (r.behind, r.ahead) == counts_of(probe.counts)
            &&& opt_view(r.blocked) == if probe.operation_in_progress {
                Some(msg_in_progress_here())
            } else if !r.has_remote {
                Some(msg_no_remote())
            } else {
                None
            }
        },
{
    if !probe.inside_work_tree {
        return SyncStatus {
            is_repo: false,
            has_remote: false,
            branch: None,
            dirty: false,
            ahead: 0,
            behind: 0,
            blocked: None,
        };
    }
    let has_remote = match &probe.remote {
        Ok(out) => chars_of(out.as_str()).len() > 0,
        Err(_) => false,
    };
    let branch = match &probe.branch {
        Ok(b) => Some(copy_string(b)),
        Err(_) => None,
    };
    let dirty = match &probe.porcelain {
        Ok(out) => chars_of(out.as_str()).len() > 0,
        Err(_) => false,
    };
    let (behind, ahead) = match &probe.counts {
        Ok(c) => {
            let s = chars_of(c.as_str());
            let a = word_start_exec(s.as_slice(), 0);
            let ae = word_end_exec(s.as_slice(), a);
            let b = word_start_exec(s.as_slice(), ae);
            let be = word_end_exec(s.as_slice(), b);
            (count_or_zero_exec(s.as_slice(), a, ae), count_or_zero_exec(s.as_slice(), b, be))
        },
        Err(_) => (0, 0),
    };
    let blocked = if probe.operation_in_progress {
        Some(text_of("A rebase or merge is already in progress here."))
    } else if !has_remote {
        Some(text_of("This vault has no Git remote to sync with."))
    } else {
        None
    };
    SyncStatus { is_repo: true, has_remote, branch, dirty, ahead, behind, blocked }
}

// ---------------------------------------------------------------------------
// one sync, step by step
// ---------------------------------------------------------------------------

/// The Git commands a sync runs. None of them forces anything.
#[derive(Debug, Clone, Copy, PartialEq, Eq, Structural)]
pub enum GitCommand {
    /// `config user.email`
    ConfigEmail,
    /// `add -A`
    AddAll,
    /// `commit -m "Vault sync"`
    Commit,
    /// `pull --rebase --autostash`
    Pull,
    /// `rebase --abort`
    AbortRebase,
    /// `push`
    Push,
}

/// Where a sync stands, waiting for the answer to what it asked last.
#[derive(Debug, Clone, PartialEq, Eq)]
pub enum SyncStage {
    /// Nothing asked yet.
    Start,
    /// Waiting for the vault's status.
    Status,
    /// Waiting to hear whether an operation is under way; `dirty` from the
    /// status.
    InProgress { dirty: bool },
    /// Waiting for `config user.email`.
    Email { dirty: bool },
    /// Waiting for `add -A`.
    Add,
    /// Waiting for `commit`.
    Commit,
    /// Waiting for `pull`; `changed` says whether anything was done so far.
    Pull { changed: bool },
    /// The pull failed with `error`; waiting to hear whether it stopped
    /// mid-rebase.
    PullStopped { error: String },
    /// Waiting for `rebase --abort`.
    Abort,
    /// Waiting for the status after the pull.
    Ahead { changed: bool },
    /// Waiting for `push`.
    Push,
    /// The sync is over.
    Done,
}

/// What the application should do next.
pub enum SyncAction {
    /// Probe the vault and report its [`SyncStatus`].
    ProbeStatus,
    /// Report whether a rebase or merge is under way.
    CheckInProgress,
    /// Run a Git command and report its result.
    Run(GitCommand),
    /// Stop: this is what the sync did.
    Finish(SyncOutcome),
}

/// What the application observed in answer.
pub enum SyncEvent {
    Status(SyncStatus),
    InProgress(bool),
    Git(Result<String, String>),
}

/// An outcome, as plain values.
pub struct SpecOutcome {
    pub changed: bool,
    pub message: Seq<char>,
    pub blocked: Option<Seq<char>>,
}

pub open spec fn outcome_view(o: SyncOutcome) -> SpecOutcome {
    SpecOutcome { changed: o.changed, message: o.message@, blocked: opt_view(o.blocked) }
}

/// Sync stopped on purpose: nothing done, the reason shown.
pub open spec fn blocked_spec(reason: Seq<char>) -> SpecOutcome {
    SpecOutcome { changed: false, message: reason, blocked: Some(reason) }
}

pub open spec fn msg_not_repo() -> Seq<char> {
    "This vault is not a Git repository."@
}

pub open spec fn msg_paused() -> Seq<char> {
    "A rebase or merge is in progress. Sync paused until it is finished."@
}

pub open spec fn msg_no_email() -> Seq<char> {
    "Git has no user.email set, so it cannot commit. Set one and try again."@
}

pub open spec fn msg_conflict() -> Seq<char> {
    "The same note was changed in both places. Sync is paused — resolve it in a terminal, then sync again."@
}

pub open spec fn msg_stage() -> Seq<char> {
    "Could not stage changes: "@
}

pub open spec fn msg_commit() -> Seq<char> {
    "Could not commit: "@
}

pub open spec fn msg_pull() -> Seq<char> {
    "Could not pull: "@
}

pub open spec fn msg_push() -> Seq<char> {
    "Could not push: "@
}

pub open spec fn msg_up_to_date() -> Seq<char> {
    "Already up to date"@
}

pub open spec fn msg_synced() -> Seq<char> {
    "Synced"@
}

/// The final outcome of a sync that went through.
pub open spec fn done_spec(changed: bool) -> SpecOutcome {
    SpecOutcome {
        changed,
        message: if changed {
            msg_synced()
        } else {
            msg_up_to_date()
        },
        blocked: None,
    }
}

fn blocked(reason: &str) -> (r: SyncOutcome)
    ensures
        outcome_view(r) == blocked_spec(reason@),
{
    SyncOutcome { changed: false, message: text_of(reason), blocked: Some(text_of(reason)) }
}

fn failed(lead: &str, err: &String) -> (r: SyncOutcome)
    ensures
        outcome_view(r) == blocked_spec(lead@ + err@),
{
    let mut m = chars_of(lead);
    let mut e = chars_of(err.as_str());
    m.append(&mut e);
    SyncOutcome { changed: false, message: string_of(m.as_slice()), blocked: Some(string_of(m.as_slice())) }
}

fn done(changed: bool) -> (r: SyncOutcome)
    ensures
        outcome_view(r) == done_spec(changed),
{
    let message = if changed {
        text_of("Synced")
    } else {
        text_of("Already up to date")
    };
    SyncOutcome { changed, message, blocked: None }
}

/// The action finishes the sync with this outcome.
pub open spec fn finishes(a: SyncAction, o: SpecOutcome) -> bool {
    match a {
        SyncAction::Finish(x) => outcome_view(x) == o,
        _ => false,
    }
}

/// The action runs this Git command.
pub open spec fn runs(a: SyncAction, c: GitCommand) -> bool {
    match a {
        SyncAction::Run(x) => x == c,
        _ => false,
    }
}

/// The stage is waiting after a pull that failed with this error.
pub open spec fn stopped_with(s: SyncStage, e: Seq<char>) -> bool {
    match s {
        SyncStage::PullStopped { error } => error@ == e,
        _ => false,
    }
}

/// The action that asks a stage's question again: probe the status, check
/// for a rebase or merge in progress, run the stage's Git command, or, once
/// done, finish with nothing changed.
pub open spec fn asks_again(s: SyncStage, a: SyncAction) -> bool {
    match s {
        SyncStage::Start | SyncStage::Status | SyncStage::Ahead { .. } => a is ProbeStatus,
        SyncStage::InProgress { .. } | SyncStage::PullStopped { .. } => a is CheckInProgress,
        SyncStage::Email { .. } => runs(a, GitCommand::ConfigEmail),
        SyncStage::Add => runs(a, GitCommand::AddAll),
        SyncStage::Commit => runs(a, GitCommand::Commit),
        SyncStage::Pull { .. } => runs(a, GitCommand::Pull),
        SyncStage::Abort => runs(a, GitCommand::AbortRebase),
        SyncStage::Push => runs(a, GitCommand::Push),
        SyncStage::Done => finishes(a, done_spec(false)),
    }
}

/// What a stage leads to: the next stage and the action to take, given what
/// was observed. An observation that does not answer the stage's question
/// leaves the stage as it is and asks again.
pub fn step(stage: SyncStage, event: SyncEvent) -> (r: (SyncStage, SyncAction))
    ensures
        match (stage, event) {
            (SyncStage::Start, _) => r.0 == SyncStage::Status && r.1 is ProbeStatus,
            (SyncStage::Status, SyncEvent::Status(s)) => if !s.is_repo {
                r.0 == SyncStage::Done && finishes(r.1, blocked_spec(msg_not_repo()))
            } else if !s.has_remote {
                r.0 == SyncStage::Done && finishes(r.1, blocked_spec(msg_no_remote()))
            } else {
                r.0 == (SyncStage::InProgress { dirty: s.dirty }) && r.1 is CheckInProgress
            },
            (SyncStage::InProgress { dirty }, SyncEvent::InProgress(b)) => if b {
                r.0 == SyncStage::Done && finishes(r.1, blocked_spec(msg_paused()))
            } else {
                r.0 == (SyncStage::Email { dirty }) && runs(r.1, GitCommand::ConfigEmail)
            },
            (SyncStage::Email { dirty }, SyncEvent::Git(res)) => match res {
                Err(_) => r.0 == SyncStage::Done && finishes(r.1, blocked_spec(msg_no_email())),
                Ok(_) => if dirty {
                    r.0 == SyncStage::Add && runs(r.1, GitCommand::AddAll)
                } else {
                    r.0 == (SyncStage::Pull { changed: false }) && runs(r.1, GitCommand::Pull)
                },
            },
            (SyncStage::Add, SyncEvent::Git(res)) => match res {
                Err(e) => r.0 == SyncStage::Done && finishes(r.1, blocked_spec(msg_stage() + e@)),
                Ok(_) => r.0 == SyncStage::Commit && runs(r.1, GitCommand::Commit),
            },
            (SyncStage::Commit, SyncEvent::Git(res)) => match res {
                Err(e) => r.0 == SyncStage::Done && finishes(r.1, blocked_spec(msg_commit() + e@)),
                Ok(_) => r.0 == (SyncStage::Pull { changed: true }) && runs(r.1, GitCommand::Pull),
            },
            (SyncStage::Pull { changed }, SyncEvent::Git(res)) => match res {
                Ok(out) => r.0 == (SyncStage::Ahead { changed: changed || !contains_seq(out@, msg_up_to_date()) }) && r.1 is ProbeStatus,
                Err(e) => stopped_with(r.0, e@) && r.1 is CheckInProgress,
            },
            (SyncStage::PullStopped { error }, SyncEvent::InProgress(b)) => if b {
                r.0 == SyncStage::Abort && runs(r.1, GitCommand::AbortRebase)
            } else {
                r.0 == SyncStage::Done && finishes(r.1, blocked_spec(msg_pull() + error@))
            },
            (SyncStage::Abort, SyncEvent::Git(_)) => r.0 == SyncStage::Done && finishes(r.1, blocked_spec(msg_conflict())),
            (SyncStage::Ahead { changed }, SyncEvent::Status(s)) => if s.ahead > 0 {
                r.0 == SyncStage::Push && runs(r.1, GitCommand::Push)
            } else {
                r.0 == SyncStage::Done && finishes(r.1, done_spec(changed))
            },
            (SyncStage::Push, SyncEvent::Git(res)) => match res {
                Err(e) => r.0 == SyncStage::Done && finishes(r.1, blocked_spec(msg_push() + e@)),
                Ok(_) => r.0 == SyncStage::Done && finishes(r.1, done_spec(true)),
            },
            (SyncStage::Done, _) => r.0 == SyncStage::Done && finishes(r.1, done_spec(false)),
            _ => r.0 == stage && asks_again(stage, r.1),
        },
{
    match (stage, event) {
        (SyncStage::Start, _) => (SyncStage::Status, SyncAction::ProbeStatus),
        (SyncStage::Status, SyncEvent::Status(s)) => {
            if !s.is_repo {
                (SyncStage::Done, SyncAction::Finish(blocked("This vault is not a Git repository.")))
            } else if !s.has_remote {
                (SyncStage::Done, SyncAction::Finish(blocked("This vault has no Git remote to sync with.")))
            } else {
                (SyncStage::InProgress { dirty: s.dirty }, SyncAction::CheckInProgress)
            }
        },
        (SyncStage::InProgress { dirty }, SyncEvent::InProgress(b)) => {
            if b {
                (
                    SyncStage::Done,
                    SyncAction::Finish(blocked("A rebase or merge is in progress. Sync paused until it is finished.")),
                )
            } else {
                (SyncStage::Email { dirty }, SyncAction::Run(GitCommand::ConfigEmail))
            }
        },
        (SyncStage::Email { dirty }, SyncEvent::Git(res)) => match res {
            Err(_) => (
                SyncStage::Done,
                SyncAction::Finish(blocked("Git has no user.email set, so it cannot commit. Set one and try again.")),
            ),
            Ok(_) => {
                if dirty {
                    (SyncStage::Add, SyncAction::Run(GitCommand::AddAll))
                } else {
                    (SyncStage::Pull { changed: false }, SyncAction::Run(GitCommand::Pull))
                }
            },
        },
        (SyncStage::Add, SyncEvent::Git(res)) => match res {
            Err(e) => (SyncStage::Done, SyncAction::Finish(failed("Could not stage changes: ", &e))),
            Ok(_) => (SyncStage::Commit, SyncAction::Run(GitCommand::Commit)),
        },
        (SyncStage::Commit, SyncEvent::Git(res)) => match res {
            Err(e) => (SyncStage::Done, SyncAction::Finish(failed("Could not commit: ", &e))),
            Ok(_) => (SyncStage::Pull { changed: true }, SyncAction::Run(GitCommand::Pull)),
        },
        (SyncStage::Pull { changed }, SyncEvent::Git(res)) => match res {
            Ok(out) => {
                let mark = chars_of("Already up to date");
                let pulled = !contains(chars_of(out.as_str()).as_slice(), mark.as_slice());
                (SyncStage::Ahead { changed: changed || pulled }, SyncAction::ProbeStatus)
            },
            Err(e) => (SyncStage::PullStopped { error: e }, SyncAction::CheckInProgress),
        },
        (SyncStage::PullStopped { error }, SyncEvent::InProgress(b)) => {
            if b {
                (SyncStage::Abort, SyncAction::Run(GitCommand::AbortRebase))
            } else {
                (SyncStage::Done, SyncAction::Finish(failed("Could not pull: ", &error)))
            }
        },
        (SyncStage::Abort, SyncEvent::Git(_)) => (
            SyncStage::Done,
            SyncAction::Finish(
                blocked(
                    "The same note was changed in both places. Sync is paused — resolve it in a terminal, then sync again.",
                ),
            ),
        ),
        (SyncStage::Ahead { changed }, SyncEvent::Status(s)) => {
            if s.ahead > 0 {
                (SyncStage::Push, SyncAction::Run(GitCommand::Push))
            } else {
                (SyncStage::Done, SyncAction::Finish(done(changed)))
            }
        },
        (SyncStage::Push, SyncEvent::Git(res)) => match res {
            Err(e) => (SyncStage::Done, SyncAction::Finish(failed("Could not push: ", &e))),
            Ok(_) => (SyncStage::Done, SyncAction::Finish(done(true))),
        },
        (SyncStage::Done, _) => (SyncStage::Done, SyncAction::Finish(done(false))),
        (stage, SyncEvent::Status(_)) => {
            let action = pending_action(&stage);
            (stage, action)
        },
        (stage, _) => {
            let action = pending_action(&stage);
            (stage, action)
        },
    }
}

fn pending_action(stage: &SyncStage) -> (r: SyncAction)
    ensures
        asks_again(*stage, r),
{
    match stage {
        SyncStage::Start | SyncStage::Status | SyncStage::Ahead { .. } => SyncAction::ProbeStatus,
        SyncStage::InProgress { .. } | SyncStage::PullStopped { .. } => SyncAction::CheckInProgress,
        SyncStage::Email { .. } => SyncAction::Run(GitCommand::ConfigEmail),
        SyncStage::Add => SyncAction::Run(GitCommand::AddAll),
        SyncStage::Commit => SyncAction::Run(GitCommand::Commit),
        SyncStage::Pull { .. } => SyncAction::Run(GitCommand::Pull),
        SyncStage::Abort => SyncAction::Run(GitCommand::AbortRebase),
        SyncStage::Push => SyncAction::Run(GitCommand::Push),
        SyncStage::Done => SyncAction::Finish(done(false)),
    }
}

/// The vault directory a command names.
pub fn vault_path(vault: &str) -> (r: String)
    ensures
        r@ == vault@,
{
    text_of(vault)
}

} // verus!
