//! The git-backed mirror protocol: the ephemeral clone's identity, the
//! order its steps must take, the commit message they carry, and the
//! freshness comparison against the persisted commit identifier.
//!
//! The clone, stage, commit and push themselves are transport work done
//! outside the library; what is verified here is every decision around
//! them: where the clone lives, which step may follow which, what message
//! a commit gets, and what the comparison of commit identifiers reports.

use crate::fileman::{FsEntry, FsEntryView};
use vstd::prelude::*;

verus! {

/// A character of a hyphenated identifier: lowercase hexadecimal or the
/// hyphen.
pub open spec fn is_uuid_char(c: char) -> bool {
    ||| (0x30 <= c as u32 && c as u32 <= 0x39)
    ||| (0x61 <= c as u32 && c as u32 <= 0x66)
    ||| c == '-'
}

/// The text of a hyphenated identifier: 36 such characters.
pub open spec fn uuid_text(s: Seq<char>) -> bool {
    &&& s.len() == 36
    &&& forall|i: int| 0 <= i < s.len() ==> is_uuid_char(s[i])
}

/// Relies on uuid::Uuid::new_v4 and its hyphenated text form: a fresh
/// random identifier, written as 36 characters of lowercase hexadecimal
/// digits and hyphens. Nothing more is promised of a random value.
#[verifier::external_body]
fn fresh_uuid_string() -> (r: String)
    ensures
        uuid_text(r@),
{
    uuid::Uuid::new_v4().to_string()
}

/// What git makes of a commit message when no comment character is given:
/// what `git2::message_prettify` returns. A function of the message alone.
pub uninterp spec fn prettified(message: Seq<char>) -> Seq<char>;

/// Whether git accepts the message: whether `git2::message_prettify`
/// returns a cleaned-up text for it. A function of the message alone; it
/// refuses a message it cannot pass through whole, one holding a NUL.
pub uninterp spec fn prettify_ok(message: Seq<char>) -> bool;

/// Relies on git2::message_prettify (no comment character): whether it
/// accepts the message depends on the message alone; when it does, it
/// cleans the text up, removing extraneous whitespace, and ensures that
/// it ends with a newline.
#[verifier::external_body]
fn prettify_message(message: &str) -> (r: Option<String>)
    ensures
        r is Some <==> prettify_ok(message@),
        r matches Some(s) ==> s@ == prettified(message@),
        r matches Some(s) ==> (s@.len() > 0 ==> s@[s@.len() - 1] == '\n'),
{
    git2::message_prettify(message, None).ok()
}

/// A failure of one of the mirror's git steps.
#[derive(Debug)]
pub enum GitError {
    /// The clone could not be created or opened.
    RepoOpen,
    /// The commit message was refused or the commit could not be created.
    CreateCommit,
    /// The upstream-tracking reference could not be resolved to a parent
    /// commit.
    RevParse,
    /// The clone's index could not be read.
    GetIndex,
}

impl GitError {
    /// The diagnostic shown to the user.
    pub fn message(&self) -> (r: String)
        ensures
            self matches GitError::RepoOpen ==> r@ == "Failed to open the repository"@,
            self matches GitError::CreateCommit ==> r@ == "Failed to create commit"@,
            self matches GitError::RevParse ==> r@ == "Failed to get parent commit"@,
            self matches GitError::GetIndex ==> r@ == "Failed to get repo index"@,
    {
        match self {
            GitError::RepoOpen => String::from_str("Failed to open the repository"),
            GitError::CreateCommit => String::from_str("Failed to create commit"),
            GitError::RevParse => String::from_str("Failed to get parent commit"),
            GitError::GetIndex => String::from_str("Failed to get repo index"),
        }
    }
}

/// The ephemeral mirror clone: a fresh, collision-resistant temporary
/// directory, and the upstream it mirrors.
pub struct GitRepo {
    /// Where the clone lives for this one invocation.
    pub repo_path: String,
    /// The remote the clone is taken from and pushed to.
    pub upstream_url: String,
}

impl GitRepo {
    /// A mirror handle with a fresh temporary clone directory, never
    /// reused across invocations.
    pub fn new(upstream_url: String) -> (r: GitRepo)
        ensures
            r.upstream_url == upstream_url,
            exists|t: Seq<char>| uuid_text(t) && r.repo_path@ == "/tmp/setman-tmp-"@ + t,
    {
        let tag = fresh_uuid_string();
        let mut repo_path = String::from_str("/tmp/setman-tmp-");
        repo_path.append(tag.as_str());
        GitRepo { repo_path, upstream_url }
    }

    /// The top-level directories of the clone that hold application
    /// files: every directory entry but the version-control metadata.
    pub fn get_dir_names(&self, entries: &Vec<FsEntry>) -> (r: Vec<String>)
        ensures
            r.deep_view() == mirror_dir_names(entries.deep_view()),
    {
        let mut names: Vec<String> = Vec::new();
        let mut i: usize = 0;
        while i < entries.len()
            invariant
                i <= entries.len(),
                names.deep_view() == mirror_dir_names(entries.deep_view().take(i as int)),
            decreases entries.len() - i,
        {
            proof {
                assert(entries.deep_view().take(i + 1 as int).drop_last()
                    =~= entries.deep_view().take(i as int));
                assert(entries.deep_view().take(i + 1 as int).last() == entries.deep_view()[
                    i as int
                ]);
            }
            if entries[i].is_dir && !crate::codec::str_eq(entries[i].name.as_str(), ".git") {
                let ghost names_before = names.deep_view();
                names.push(entries[i].name.clone());
                proof {
                    assert(names.deep_view() =~= names_before.push(
                        entries.deep_view()[i as int].name,
                    ));
                }
            }
            i = i + 1;
        }
        proof {
            assert(entries.deep_view().take(entries.len() as int) =~= entries.deep_view());
        }
        names
    }

    /// The message a new commit carries: the raw text as git normalizes
    /// it; `CreateCommit` exactly when git refuses the text.
    pub fn prepare_commit_message(&self, raw: &str) -> (r: Result<String, GitError>)
        ensures
            r is Ok <==> prettify_ok(raw@),
            r matches Ok(s) ==> s@ == prettified(raw@),
            r matches Ok(s) ==> (s@.len() > 0 ==> s@[s@.len() - 1] == '\n'),
            r is Err ==> r == Err::<String, GitError>(GitError::CreateCommit),
    {
        match prettify_message(raw) {
            Some(s) => Ok(s),
            None => Err(GitError::CreateCommit),
        }
    }
}

/// The names of the entries that are directories other than the
/// version-control metadata directory, in their original order.
pub open spec fn mirror_dir_names(entries: Seq<FsEntryView>) -> Seq<Seq<char>>
    decreases entries.len(),
{
    if entries.len() == 0 {
        Seq::empty()
    } else if entries.last().is_dir && entries.last().name != ".git"@ {
        mirror_dir_names(entries.drop_last()).push(entries.last().name)
    } else {
        mirror_dir_names(entries.drop_last())
    }
}

/// Where one sync invocation stands in the mirror protocol.
pub enum MirrorPhase {
    /// Nothing has happened yet.
    Fresh,
    /// The ephemeral clone exists.
    Cloned,
    /// The clone's top-level directories have been read (the adopt path).
    Scanned,
    /// All changes are staged in the clone's index (the publish path).
    Staged,
    /// A commit with a resolved parent has been created.
    Committed,
    /// The commit has been pushed to the remote.
    Pushed,
    /// The invocation finished its path.
    Done,
    /// A step failed; the invocation is over.
    Failed,
}

/// What the transport reported back for one step.
pub enum MirrorEvent {
    /// The clone was created.
    CloneOk,
    /// The clone's directories were read.
    ScanOk,
    /// Everything is staged and the parent commit is resolved.
    StageOk,
    /// The commit was created.
    CommitOk,
    /// The push was accepted.
    PushOk,
    /// The path's work is complete.
    Finish,
    /// The step failed.
    Fail,
}

/// The one next phase after an event: the publish path walks
/// `Fresh → Cloned → Staged → Committed → Pushed → Done`, the adopt path
/// `Fresh → Cloned → Scanned → Done`; a failure, or an event out of
/// order, ends the invocation as `Failed` and nothing is retried.
pub open spec fn mirror_next(phase: MirrorPhase, event: MirrorEvent) -> MirrorPhase {
    match (phase, event) {
        (MirrorPhase::Fresh, MirrorEvent::CloneOk) => MirrorPhase::Cloned,
        (MirrorPhase::Cloned, MirrorEvent::ScanOk) => MirrorPhase::Scanned,
        (MirrorPhase::Cloned, MirrorEvent::StageOk) => MirrorPhase::Staged,
        (MirrorPhase::Staged, MirrorEvent::CommitOk) => MirrorPhase::Committed,
        (MirrorPhase::Committed, MirrorEvent::PushOk) => MirrorPhase::Pushed,
        (MirrorPhase::Pushed, MirrorEvent::Finish) => MirrorPhase::Done,
        (MirrorPhase::Scanned, MirrorEvent::Finish) => MirrorPhase::Done,
        _ => MirrorPhase::Failed,
    }
}

/// Advances the mirror protocol by one reported event.
pub fn mirror_step(phase: MirrorPhase, event: MirrorEvent) -> (r: MirrorPhase)
    ensures
        r == mirror_next(phase, event),
{
    match (phase, event) {
        (MirrorPhase::Fresh, MirrorEvent::CloneOk) => MirrorPhase::Cloned,
        (MirrorPhase::Cloned, MirrorEvent::ScanOk) => MirrorPhase::Scanned,
        (MirrorPhase::Cloned, MirrorEvent::StageOk) => MirrorPhase::Staged,
        (MirrorPhase::Staged, MirrorEvent::CommitOk) => MirrorPhase::Committed,
        (MirrorPhase::Committed, MirrorEvent::PushOk) => MirrorPhase::Pushed,
        (MirrorPhase::Pushed, MirrorEvent::Finish) => MirrorPhase::Done,
        (MirrorPhase::Scanned, MirrorEvent::Finish) => MirrorPhase::Done,
        _ => MirrorPhase::Failed,
    }
}

/// Law: a commit only ever comes into being from the staged phase, whose
/// event already carries a resolved parent; no parentless commit is
/// created silently.
pub proof fn lemma_commit_needs_stage(phase: MirrorPhase, event: MirrorEvent)
    ensures
        mirror_next(phase, event) is Committed ==> (phase is Staged && event is CommitOk),
{
}

/// Law: a push only ever follows a created commit.
pub proof fn lemma_push_needs_commit(phase: MirrorPhase, event: MirrorEvent)
    ensures
        mirror_next(phase, event) is Pushed ==> (phase is Committed && event is PushOk),
{
}

/// What the freshness comparison reports.
pub enum UpstreamStatus {
    /// The persisted commit identifier equals the mirror's tip.
    UpToDate,
    /// The identifiers differ, or none was ever persisted.
    Behind,
}

/// Compares the locally persisted last-known commit identifier to the
/// mirror's resolved tip: up to date exactly when they are equal; behind
/// on any other value, including when none was ever persisted.
pub fn compare_upstream(persisted: Option<&str>, tip: &str) -> (r: UpstreamStatus)
    ensures
        r is UpToDate <==> (persisted matches Some(p) && p@ == tip@),
{
    match persisted {
        Some(p) => {
            if crate::codec::str_eq(p, tip) {
                UpstreamStatus::UpToDate
            } else {
                UpstreamStatus::Behind
            }
        },
        None => UpstreamStatus::Behind,
    }
}

} // verus!
