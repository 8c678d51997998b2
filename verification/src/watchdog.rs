//! The watchdog: when the code base is brought up to date, and in which steps.

use vstd::prelude::*;
use vstd::utf8::*;

use crate::indexing::IndexingRuntime;
use crate::lines::{first_two_words, lines, text_first_two_words, text_lines};
use crate::number::{parse_number, parse_usize};
use crate::paths::{join_path, joined_path};
use crate::text::{copy_text, lemma_texts_push, opt_text, same_text, texts, trim, trim_text};
use crate::types::{utf8_text, UpdateSignal};

verus! {

// ---------------------------------------------------------------------------
// Reading what git prints
// ---------------------------------------------------------------------------

/// Why a run of git is of no use.
#[derive(Debug, Clone, Copy, PartialEq, Eq, Structural)]
pub enum GitError {
    /// Git reported a failure.
    Status,
    /// What git printed is no text.
    NotUtf8,
}

/// What git printed, if it reported success and printed text.
pub fn run_git(success: bool, stdout: Vec<u8>) -> (output: Result<String, GitError>)
    ensures
        match output {
            Ok(text) => success && valid_utf8(stdout@) && text@ == decode_utf8(stdout@),
            Err(GitError::Status) => !success,
            Err(GitError::NotUtf8) => success && !valid_utf8(stdout@),
        },
{
    if !success {
        return Err(GitError::Status);
    }
    match utf8_text(stdout) {
        Some(text) => Ok(text),
        None => Err(GitError::NotUtf8),
    }
}

/// The number of commits that git printed; none where it printed no number.
pub open spec fn commit_count(output: Seq<char>) -> nat {
    match parse_number(trim(output), usize::MAX as nat) {
        Some(n) => n,
        None => 0,
    }
}

/// The number of commits that git printed.
pub fn count_new_commits(output: &str) -> (count: usize)
    ensures
        count == commit_count(output@),
{
    let text = trim_text(output);
    match parse_usize(text.as_str()) {
        Some(n) => n,
        None => 0,
    }
}

/// The commits from one to another, as git wants them named.
pub open spec fn commit_range(from: Seq<char>, to: Seq<char>) -> Seq<char> {
    from + ".."@ + to
}

/// The commits from one to another, as git wants them named.
pub fn commit_range_text(from: &str, to: &str) -> (range: String)
    ensures
        range@ == commit_range(from@, to@),
{
    let mut range = copy_text(from);
    range.append("..");
    range.append(to);
    range
}

/// A file that differs between two commits, and how.
#[derive(Debug, Clone)]
pub struct ChangedFile {
    pub path: String,
    pub status: String,
}

/// What a `ChangedFile` holds.
#[verifier::ext_equal]
pub struct ChangeView {
    pub path: Seq<char>,
    pub status: Seq<char>,
}

impl View for ChangedFile {
    type V = ChangeView;

    open spec fn view(&self) -> ChangeView {
        ChangeView { path: self.path@, status: self.status@ }
    }
}

/// What a list of changed files holds.
pub open spec fn change_views(list: Seq<ChangedFile>) -> Seq<ChangeView> {
    Seq::new(list.len(), |i: int| list[i]@)
}

/// The changed files that a list of lines names: a line names one if it has two words, the
/// status and the path within the code base.
pub open spec fn changes_in(directory: Seq<char>, list: Seq<Seq<char>>) -> Seq<ChangeView>
    decreases list.len(),
{
    if list.len() == 0 {
        Seq::empty()
    } else {
        let before = changes_in(directory, list.drop_last());
        match first_two_words(list.last()) {
            Some((status, path)) => before.push(
                ChangeView { path: join_path(directory, path), status },
            ),
            None => before,
        }
    }
}

/// The changed files that git printed.
pub fn changed_files(directory: &str, output: &str) -> (changed: Vec<ChangedFile>)
    ensures
        change_views(changed@) == changes_in(directory@, lines(output@)),
{
    let list = text_lines(output);
    let ghost all = texts(list@);
    let mut changed: Vec<ChangedFile> = Vec::new();
    assert(all.take(0) =~= Seq::empty());
    assert(change_views(changed@) =~= Seq::<ChangeView>::empty());
    for i in 0..list.len()
        invariant
            all == texts(list@),
            change_views(changed@) == changes_in(directory@, all.take(i as int)),
    {
        proof {
            assert(all.take(i + 1).drop_last() =~= all.take(i as int));
            assert(all.take(i + 1).last() == list@[i as int]@);
        }
        if let Some((status, path)) = text_first_two_words(list[i].as_str()) {
            let file = ChangedFile { path: joined_path(directory, path.as_str()), status };
            assert(change_views(changed@.push(file)) =~= change_views(changed@).push(file@));
            changed.push(file);
        }
    }
    assert(all.take(all.len() as int) =~= all);
    changed
}

/// Whether a status says that the file is gone.
pub open spec fn is_deleted(status: Seq<char>) -> bool {
    status == "D"@
}

/// Whether a status says that the file is new or has changed.
pub open spec fn is_updated(status: Seq<char>) -> bool {
    status == "A"@ || status == "M"@
}

/// The paths of the files that are gone.
pub open spec fn deleted_in(changes: Seq<ChangeView>) -> Seq<Seq<char>>
    decreases changes.len(),
{
    if changes.len() == 0 {
        Seq::empty()
    } else {
        let before = deleted_in(changes.drop_last());
        if is_deleted(changes.last().status) {
            before.push(changes.last().path)
        } else {
            before
        }
    }
}

/// The paths of the files that are new or have changed.
pub open spec fn updated_in(changes: Seq<ChangeView>) -> Seq<Seq<char>>
    decreases changes.len(),
{
    if changes.len() == 0 {
        Seq::empty()
    } else {
        let before = updated_in(changes.drop_last());
        if is_updated(changes.last().status) {
            before.push(changes.last().path)
        } else {
            before
        }
    }
}

/// The paths of the files that are gone.
pub fn deleted_paths(changed: &Vec<ChangedFile>) -> (paths: Vec<String>)
    ensures
        texts(paths@) == deleted_in(change_views(changed@)),
{
    let ghost all = change_views(changed@);
    let mut paths: Vec<String> = Vec::new();
    assert(all.take(0) =~= Seq::empty());
    assert(texts(paths@) =~= Seq::<Seq<char>>::empty());
    for i in 0..changed.len()
        invariant
            all == change_views(changed@),
            texts(paths@) == deleted_in(all.take(i as int)),
    {
        proof {
            assert(all.take(i + 1).drop_last() =~= all.take(i as int));
            assert(all.take(i + 1).last() == changed@[i as int]@);
        }
        if same_text(changed[i].status.as_str(), "D") {
            let path = copy_text(changed[i].path.as_str());
            proof {
                lemma_texts_push(paths@, path);
            }
            paths.push(path);
        }
    }
    assert(all.take(all.len() as int) =~= all);
    paths
}

/// The paths of the files that are new or have changed.
pub fn updated_paths(changed: &Vec<ChangedFile>) -> (paths: Vec<String>)
    ensures
        texts(paths@) == updated_in(change_views(changed@)),
{
    let ghost all = change_views(changed@);
    let mut paths: Vec<String> = Vec::new();
    assert(all.take(0) =~= Seq::empty());
    assert(texts(paths@) =~= Seq::<Seq<char>>::empty());
    for i in 0..changed.len()
        invariant
            all == change_views(changed@),
            texts(paths@) == updated_in(all.take(i as int)),
    {
        proof {
            assert(all.take(i + 1).drop_last() =~= all.take(i as int));
            assert(all.take(i + 1).last() == changed@[i as int]@);
        }
        let status = changed[i].status.as_str();
        if same_text(status, "A") || same_text(status, "M") {
            let path = copy_text(changed[i].path.as_str());
            proof {
                lemma_texts_push(paths@, path);
            }
            paths.push(path);
        }
    }
    assert(all.take(all.len() as int) =~= all);
    paths
}

/// Those paths that are flagged.
pub open spec fn flagged(paths: Seq<Seq<char>>, flags: Seq<bool>) -> Seq<Seq<char>>
    decreases paths.len(),
{
    if paths.len() == 0 {
        Seq::empty()
    } else {
        let before = flagged(paths.drop_last(), flags);
        if paths.len() <= flags.len() && flags[paths.len() - 1] {
            before.push(paths.last())
        } else {
            before
        }
    }
}

fn keep_flagged(paths: &Vec<String>, flags: &Vec<bool>) -> (kept: Vec<String>)
    ensures
        texts(kept@) == flagged(texts(paths@), flags@),
{
    let ghost all = texts(paths@);
    let mut kept: Vec<String> = Vec::new();
    assert(all.take(0) =~= Seq::empty());
    assert(texts(kept@) =~= Seq::<Seq<char>>::empty());
    for i in 0..paths.len()
        invariant
            all == texts(paths@),
            texts(kept@) == flagged(all.take(i as int), flags@),
    {
        proof {
            assert(all.take(i + 1).drop_last() =~= all.take(i as int));
            assert(all.take(i + 1).last() == paths@[i as int]@);
        }
        if i < flags.len() && flags[i] {
            let path = copy_text(paths[i].as_str());
            proof {
                lemma_texts_push(kept@, path);
            }
            kept.push(path);
        }
    }
    assert(all.take(all.len() as int) =~= all);
    kept
}

// ---------------------------------------------------------------------------
// The steps of the watchdog
// ---------------------------------------------------------------------------

/// What the watchdog is about to do.
#[derive(Debug, Clone)]
pub enum WatchPhase {
    /// Read the current commit.
    ReadHead,
    /// Count the commits since the last update.
    CountCommits,
    /// Announce an update.
    SignalStart,
    /// Pull the new commits.
    Pull,
    /// Read the commit that was pulled.
    ReadPulledHead,
    /// List the files that changed up to this commit.
    ListChanges { new_commit: String },
    /// Delete the first list from the stores; the second is indexed later.
    DeletePaths { deleted: Vec<String>, updated: Vec<String> },
    /// Find out which of these files exist.
    CheckFiles { updated: Vec<String> },
    /// Index these files.
    IndexFiles { files: Vec<String> },
    /// Read the commit that is now indexed.
    ReadSyncedHead,
    /// Announce the end of the update.
    SignalEnd,
    /// Wait for the next look.
    Sleep,
    /// Nothing more: a step failed.
    Failed,
}

/// What a `WatchPhase` holds.
#[verifier::ext_equal]
pub enum PhaseView {
    ReadHead,
    CountCommits,
    SignalStart,
    Pull,
    ReadPulledHead,
    ListChanges { new_commit: Seq<char> },
    DeletePaths { deleted: Seq<Seq<char>>, updated: Seq<Seq<char>> },
    CheckFiles { updated: Seq<Seq<char>> },
    IndexFiles { files: Seq<Seq<char>> },
    ReadSyncedHead,
    SignalEnd,
    Sleep,
    Failed,
}

impl View for WatchPhase {
    type V = PhaseView;

    open spec fn view(&self) -> PhaseView {
        match self {
            WatchPhase::ReadHead => PhaseView::ReadHead,
            WatchPhase::CountCommits => PhaseView::CountCommits,
            WatchPhase::SignalStart => PhaseView::SignalStart,
            WatchPhase::Pull => PhaseView::Pull,
            WatchPhase::ReadPulledHead => PhaseView::ReadPulledHead,
            WatchPhase::ListChanges { new_commit } => PhaseView::ListChanges {
                new_commit: new_commit@,
            },
            WatchPhase::DeletePaths { deleted, updated } => PhaseView::DeletePaths {
                deleted: texts(deleted@),
                updated: texts(updated@),
            },
            WatchPhase::CheckFiles { updated } => PhaseView::CheckFiles { updated: texts(updated@) },
            WatchPhase::IndexFiles { files } => PhaseView::IndexFiles { files: texts(files@) },
            WatchPhase::ReadSyncedHead => PhaseView::ReadSyncedHead,
            WatchPhase::SignalEnd => PhaseView::SignalEnd,
            WatchPhase::Sleep => PhaseView::Sleep,
            WatchPhase::Failed => PhaseView::Failed,
        }
    }
}

/// What came of the last step.
#[derive(Debug, Clone)]
pub enum WatchEvent {
    /// Git printed this.
    Output(String),
    /// Which of the files exist.
    Existing(Vec<bool>),
    /// The step is done.
    Done,
    /// The step failed.
    Failed,
}

/// What a `WatchEvent` holds.
#[verifier::ext_equal]
pub enum WatchEventView {
    Output(Seq<char>),
    Existing(Seq<bool>),
    Done,
    Failed,
}

impl View for WatchEvent {
    type V = WatchEventView;

    open spec fn view(&self) -> WatchEventView {
        match self {
            WatchEvent::Output(text) => WatchEventView::Output(text@),
            WatchEvent::Existing(flags) => WatchEventView::Existing(flags@),
            WatchEvent::Done => WatchEventView::Done,
            WatchEvent::Failed => WatchEventView::Failed,
        }
    }
}

/// What the watchdog wants done.
#[derive(Debug, Clone)]
pub enum WatchAction {
    /// Run git in the code base with these arguments.
    Git(Vec<String>),
    /// Send a signal to the orchestrator.
    Send(UpdateSignal),
    /// Delete these paths from the stores.
    Delete(Vec<String>),
    /// Find out which of these files exist.
    Check(Vec<String>),
    /// Index these files.
    Index(Vec<String>),
    /// Wait.
    Sleep,
    /// Stop with the failure of the last step.
    Stop,
}

/// What a `WatchAction` holds.
#[verifier::ext_equal]
pub enum ActionView {
    Git(Seq<Seq<char>>),
    Send(UpdateSignal),
    Delete(Seq<Seq<char>>),
    Check(Seq<Seq<char>>),
    Index(Seq<Seq<char>>),
    Sleep,
    Stop,
}

impl View for WatchAction {
    type V = ActionView;

    open spec fn view(&self) -> ActionView {
        match self {
            WatchAction::Git(args) => ActionView::Git(texts(args@)),
            WatchAction::Send(signal) => ActionView::Send(*signal),
            WatchAction::Delete(paths) => ActionView::Delete(texts(paths@)),
            WatchAction::Check(paths) => ActionView::Check(texts(paths@)),
            WatchAction::Index(paths) => ActionView::Index(texts(paths@)),
            WatchAction::Sleep => ActionView::Sleep,
            WatchAction::Stop => ActionView::Stop,
        }
    }
}

/// The process that watches the commits of the code base.
pub struct WatchdogProcess {
    pub runtime: IndexingRuntime,
    pub ipc_socket_path: String,
    pub last_synced_commit: Option<String>,
    pub phase: WatchPhase,
}

/// What a `WatchdogProcess` goes by.
#[verifier::ext_equal]
pub struct WatchView {
    pub directory: Seq<char>,
    pub branch: Seq<char>,
    pub threshold: usize,
    pub last_synced: Option<Seq<char>>,
    pub phase: PhaseView,
}

impl View for WatchdogProcess {
    type V = WatchView;

    open spec fn view(&self) -> WatchView {
        WatchView {
            directory: self.runtime.config.codebase.directory_path@,
            branch: self.runtime.config.codebase.git_branch@,
            threshold: self.runtime.config.codebase.commit_threshold,
            last_synced: opt_text(self.last_synced_commit),
            phase: self.phase@,
        }
    }
}

/// The commit of the last update; nothing before the first look.
pub open spec fn previous_commit(view: WatchView) -> Seq<char> {
    match view.last_synced {
        Some(commit) => commit,
        None => Seq::empty(),
    }
}

/// What is done in a phase.
pub open spec fn action_of(view: WatchView) -> ActionView {
    match view.phase {
        PhaseView::ReadHead => ActionView::Git(seq!["rev-parse"@, "HEAD"@]),
        PhaseView::CountCommits => ActionView::Git(
            seq!["rev-list"@, "--count"@, commit_range(previous_commit(view), "HEAD"@)],
        ),
        PhaseView::SignalStart => ActionView::Send(UpdateSignal::UpdateStart),
        PhaseView::Pull => ActionView::Git(seq!["pull"@, "origin"@, view.branch]),
        PhaseView::ReadPulledHead => ActionView::Git(seq!["rev-parse"@, "HEAD"@]),
        PhaseView::ListChanges { new_commit } => ActionView::Git(
            seq!["diff"@, "--name-status"@, commit_range(previous_commit(view), new_commit)],
        ),
        PhaseView::DeletePaths { deleted, .. } => ActionView::Delete(deleted),
        PhaseView::CheckFiles { updated } => ActionView::Check(updated),
        PhaseView::IndexFiles { files } => ActionView::Index(files),
        PhaseView::ReadSyncedHead => ActionView::Git(seq!["rev-parse"@, "HEAD"@]),
        PhaseView::SignalEnd => ActionView::Send(UpdateSignal::UpdateEnd),
        PhaseView::Sleep => ActionView::Sleep,
        PhaseView::Failed => ActionView::Stop,
    }
}

/// What follows when the files that are gone were deleted.
pub open spec fn phase_after_delete(updated: Seq<Seq<char>>) -> PhaseView {
    if updated.len() == 0 {
        PhaseView::ReadSyncedHead
    } else {
        PhaseView::CheckFiles { updated }
    }
}

/// What follows when git listed the changed files.
pub open spec fn phase_after_list(changes: Seq<ChangeView>) -> PhaseView {
    if deleted_in(changes).len() == 0 {
        phase_after_delete(updated_in(changes))
    } else {
        PhaseView::DeletePaths { deleted: deleted_in(changes), updated: updated_in(changes) }
    }
}

/// What follows when it is known which files exist.
pub open spec fn phase_after_check(files: Seq<Seq<char>>) -> PhaseView {
    if files.len() == 0 {
        PhaseView::ReadSyncedHead
    } else {
        PhaseView::IndexFiles { files }
    }
}

/// The watchdog after a step. What its phase does not wait for changes nothing.
pub open spec fn watch_after(view: WatchView, event: WatchEventView) -> WatchView {
    match (view.phase, event) {
        (_, WatchEventView::Failed) => WatchView { phase: PhaseView::Failed, ..view },
        (PhaseView::ReadHead, WatchEventView::Output(text)) => if view.last_synced is None {
            WatchView { last_synced: Some(trim(text)), phase: PhaseView::Sleep, ..view }
        } else {
            WatchView { phase: PhaseView::CountCommits, ..view }
        },
        (PhaseView::CountCommits, WatchEventView::Output(text)) => WatchView {
            phase: if commit_count(text) >= view.threshold {
                PhaseView::SignalStart
            } else {
                PhaseView::Sleep
            },
            ..view
        },
        (PhaseView::SignalStart, WatchEventView::Done) => WatchView {
            phase: PhaseView::Pull,
            ..view
        },
        (PhaseView::Pull, WatchEventView::Output(_)) => WatchView {
            phase: PhaseView::ReadPulledHead,
            ..view
        },
        (PhaseView::ReadPulledHead, WatchEventView::Output(text)) => WatchView {
            phase: PhaseView::ListChanges { new_commit: trim(text) },
            ..view
        },
        (PhaseView::ListChanges { .. }, WatchEventView::Output(text)) => WatchView {
            phase: phase_after_list(changes_in(view.directory, lines(text))),
            ..view
        },
        (PhaseView::DeletePaths { updated, .. }, WatchEventView::Done) => WatchView {
            phase: phase_after_delete(updated),
            ..view
        },
        (PhaseView::CheckFiles { updated }, WatchEventView::Existing(flags)) => WatchView {
            phase: phase_after_check(flagged(updated, flags)),
            ..view
        },
        (PhaseView::IndexFiles { .. }, WatchEventView::Done) => WatchView {
            phase: PhaseView::ReadSyncedHead,
            ..view
        },
        (PhaseView::ReadSyncedHead, WatchEventView::Output(text)) => WatchView {
            last_synced: Some(trim(text)),
            phase: PhaseView::SignalEnd,
            ..view
        },
        (PhaseView::SignalEnd, WatchEventView::Done) => WatchView {
            phase: PhaseView::Sleep,
            ..view
        },
        (PhaseView::Sleep, WatchEventView::Done) => WatchView {
            phase: PhaseView::ReadHead,
            ..view
        },
        _ => view,
    }
}

fn copy_texts(list: &Vec<String>) -> (copy: Vec<String>)
    ensures
        texts(copy@) == texts(list@),
{
    let mut copy: Vec<String> = Vec::new();
    for i in 0..list.len()
        invariant
            texts(copy@) == texts(list@).take(i as int),
    {
        let text = copy_text(list[i].as_str());
        proof {
            lemma_texts_push(copy@, text);
            assert(texts(list@).take(i + 1) =~= texts(list@).take(i as int).push(text@));
        }
        copy.push(text);
    }
    assert(texts(list@).take(list@.len() as int) =~= texts(list@));
    copy
}

fn git_args(first: &str, second: &str, third: Option<&str>) -> (args: Vec<String>)
    ensures
        texts(args@) == (match third {
            Some(t) => seq![first@, second@, t@],
            None => seq![first@, second@],
        }),
{
    let mut args: Vec<String> = Vec::new();
    args.push(copy_text(first));
    args.push(copy_text(second));
    assert(texts(args@) =~= seq![first@, second@]);
    if let Some(t) = third {
        args.push(copy_text(t));
        assert(texts(args@) =~= seq![first@, second@, t@]);
    }
    args
}

fn after_delete(updated: Vec<String>) -> (phase: WatchPhase)
    ensures
        phase@ == phase_after_delete(texts(updated@)),
{
    if updated.len() == 0 {
        WatchPhase::ReadSyncedHead
    } else {
        WatchPhase::CheckFiles { updated }
    }
}

fn after_list(changed: &Vec<ChangedFile>) -> (phase: WatchPhase)
    ensures
        phase@ == phase_after_list(change_views(changed@)),
{
    let deleted = deleted_paths(changed);
    let updated = updated_paths(changed);
    assert(texts(deleted@).len() == deleted@.len());
    if deleted.len() == 0 {
        after_delete(updated)
    } else {
        WatchPhase::DeletePaths { deleted, updated }
    }
}

fn after_check(files: Vec<String>) -> (phase: WatchPhase)
    ensures
        phase@ == phase_after_check(texts(files@)),
{
    if files.len() == 0 {
        WatchPhase::ReadSyncedHead
    } else {
        WatchPhase::IndexFiles { files }
    }
}

impl WatchdogProcess {
    /// A watchdog that has not looked yet.
    pub fn new(runtime: IndexingRuntime, ipc_socket_path: String) -> (watchdog: WatchdogProcess)
        ensures
            watchdog.runtime == runtime,
            watchdog.ipc_socket_path@ == ipc_socket_path@,
            watchdog@.last_synced is None,
            watchdog@.phase == PhaseView::ReadHead,
    {
        WatchdogProcess {
            runtime,
            ipc_socket_path,
            last_synced_commit: None,
            phase: WatchPhase::ReadHead,
        }
    }

    fn previous(&self) -> (commit: String)
        ensures
            commit@ == previous_commit(self@),
    {
        match &self.last_synced_commit {
            Some(commit) => copy_text(commit.as_str()),
            None => String::new(),
        }
    }

    /// What is to be done now.
    pub fn next_action(&self) -> (action: WatchAction)
        ensures
            action@ == action_of(self@),
    {
        match &self.phase {
            WatchPhase::ReadHead => WatchAction::Git(git_args("rev-parse", "HEAD", None)),
            WatchPhase::CountCommits => {
                let from = self.previous();
                let range = commit_range_text(from.as_str(), "HEAD");
                WatchAction::Git(git_args("rev-list", "--count", Some(range.as_str())))
            },
            WatchPhase::SignalStart => WatchAction::Send(UpdateSignal::UpdateStart),
            WatchPhase::Pull => WatchAction::Git(
                git_args(
                    "pull",
                    "origin",
                    Some(self.runtime.config.codebase.git_branch.as_str()),
                ),
            ),
            WatchPhase::ReadPulledHead => WatchAction::Git(git_args("rev-parse", "HEAD", None)),
            WatchPhase::ListChanges { new_commit } => {
                let from = self.previous();
                let range = commit_range_text(from.as_str(), new_commit.as_str());
                WatchAction::Git(git_args("diff", "--name-status", Some(range.as_str())))
            },
            WatchPhase::DeletePaths { deleted, .. } => WatchAction::Delete(copy_texts(deleted)),
            WatchPhase::CheckFiles { updated } => WatchAction::Check(copy_texts(updated)),
            WatchPhase::IndexFiles { files } => WatchAction::Index(copy_texts(files)),
            WatchPhase::ReadSyncedHead => WatchAction::Git(git_args("rev-parse", "HEAD", None)),
            WatchPhase::SignalEnd => WatchAction::Send(UpdateSignal::UpdateEnd),
            WatchPhase::Sleep => WatchAction::Sleep,
            WatchPhase::Failed => WatchAction::Stop,
        }
    }

    /// Takes note of what came of the last step.
    pub fn on_event(&mut self, event: WatchEvent)
        ensures
            final(self)@ == watch_after(old(self)@, event@),
            final(self).runtime == old(self).runtime,
            final(self).ipc_socket_path == old(self).ipc_socket_path,
    {
        let ghost before = self@;
        let ghost what = event@;
        let next = match (&self.phase, event) {
            (_, WatchEvent::Failed) => Some(WatchPhase::Failed),
            (WatchPhase::ReadHead, WatchEvent::Output(text)) => if self.last_synced_commit.is_none() {
                self.last_synced_commit = Some(trim_text(text.as_str()));
                Some(WatchPhase::Sleep)
            } else {
                Some(WatchPhase::CountCommits)
            },
            (WatchPhase::CountCommits, WatchEvent::Output(text)) => if count_new_commits(
                text.as_str(),
            ) >= self.runtime.config.codebase.commit_threshold {
                Some(WatchPhase::SignalStart)
            } else {
                Some(WatchPhase::Sleep)
            },
            (WatchPhase::SignalStart, WatchEvent::Done) => Some(WatchPhase::Pull),
            (WatchPhase::Pull, WatchEvent::Output(_)) => Some(WatchPhase::ReadPulledHead),
            (WatchPhase::ReadPulledHead, WatchEvent::Output(text)) => Some(
                WatchPhase::ListChanges { new_commit: trim_text(text.as_str()) },
            ),
            (WatchPhase::ListChanges { .. }, WatchEvent::Output(text)) => {
                let changed = changed_files(
                    self.runtime.config.codebase.directory_path.as_str(),
                    text.as_str(),
                );
                Some(after_list(&changed))
            },
            (WatchPhase::DeletePaths { updated, .. }, WatchEvent::Done) => Some(
                after_delete(copy_texts(updated)),
            ),
            (WatchPhase::CheckFiles { updated }, WatchEvent::Existing(flags)) => Some(
                after_check(keep_flagged(updated, &flags)),
            ),
            (WatchPhase::IndexFiles { .. }, WatchEvent::Done) => Some(WatchPhase::ReadSyncedHead),
            (WatchPhase::ReadSyncedHead, WatchEvent::Output(text)) => {
                self.last_synced_commit = Some(trim_text(text.as_str()));
                Some(WatchPhase::SignalEnd)
            },
            (WatchPhase::SignalEnd, WatchEvent::Done) => Some(WatchPhase::Sleep),
            (WatchPhase::Sleep, WatchEvent::Done) => Some(WatchPhase::ReadHead),
            _ => None,
        };
        if let Some(phase) = next {
            self.phase = phase;
        }
        assert(self@ =~= watch_after(before, what));
    }
}

} // verus!
