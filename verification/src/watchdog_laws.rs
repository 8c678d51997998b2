//! What holds of every update of the code base.

use vstd::prelude::*;
use vstd::utf8::*;

use crate::lines::{
    first_two_words, law_words_stand_between_white_space, lines,
};
use crate::number::{decimal, is_digit, law_parse_reads_decimal, lemma_decimal, parse_number};
use crate::orchestrator::{signalled_state, OrchestratorState};
use crate::paths::join_path;
use crate::text::{is_white_space, law_trimming_takes_off_white_space, trim};
use crate::types::{law_signal_is_read_back, signal_name, signal_of, UpdateSignal};
use crate::watchdog::{
    action_of, changes_in, commit_count, commit_range, deleted_in, flagged, is_deleted,
    is_updated, updated_in, watch_after, ActionView, ChangeView, PhaseView, WatchEventView,
    WatchView, WatchdogProcess,
};

verus! {

/// An update is announced exactly when at least as many new commits are counted as the
/// threshold asks for.
pub proof fn law_update_begins_at_the_threshold(view: WatchView, event: WatchEventView)
    requires
        view.phase != PhaseView::SignalStart,
    ensures
        watch_after(view, event).phase == PhaseView::SignalStart <==> view.phase
            == PhaseView::CountCommits && event is Output && commit_count(event->Output_0)
            >= view.threshold,
{
}

/// Whether an update was announced and its end was not.
pub open spec fn in_update(phase: PhaseView) -> bool {
    match phase {
        PhaseView::Pull => true,
        PhaseView::ReadPulledHead => true,
        PhaseView::ListChanges { .. } => true,
        PhaseView::DeletePaths { .. } => true,
        PhaseView::CheckFiles { .. } => true,
        PhaseView::IndexFiles { .. } => true,
        PhaseView::ReadSyncedHead => true,
        PhaseView::SignalEnd => true,
        _ => false,
    }
}

/// An update that was announced goes on until its end was announced too, unless a step
/// fails; and no step of an update is taken that was not announced.
pub proof fn law_announced_updates_are_ended(view: WatchView, event: WatchEventView)
    ensures
        in_update(view.phase) && !in_update(watch_after(view, event).phase) ==> event is Failed || (
        action_of(view) == ActionView::Send(UpdateSignal::UpdateEnd) && event is Done),
        !in_update(view.phase) && in_update(watch_after(view, event).phase) ==> action_of(view)
            == ActionView::Send(UpdateSignal::UpdateStart) && event is Done,
{
}

/// A failed step stops the watchdog for good.
pub proof fn law_failure_is_final(view: WatchView, event: WatchEventView)
    ensures
        watch_after(view, WatchEventView::Failed).phase == PhaseView::Failed,
        view.phase == PhaseView::Failed ==> watch_after(view, event) == view && action_of(view)
            == ActionView::Stop,
{
}

/// The commit from which changes are looked for is only set at the first look and when an
/// update is indexed.
pub proof fn law_only_updates_move_the_commit(view: WatchView, event: WatchEventView)
    requires
        view.last_synced is Some,
        view.phase != PhaseView::ReadSyncedHead,
    ensures
        watch_after(view, event).last_synced == view.last_synced,
{
}

/// Whether a path is that of a deleted file.
pub open spec fn names_deleted(changes: Seq<ChangeView>, path: Seq<char>) -> bool {
    exists|i: int|
        0 <= i < changes.len() && is_deleted((#[trigger] changes[i]).status) && changes[i].path
            == path
}

/// Whether a path is that of a new or changed file.
pub open spec fn names_updated(changes: Seq<ChangeView>, path: Seq<char>) -> bool {
    exists|i: int|
        0 <= i < changes.len() && is_updated((#[trigger] changes[i]).status) && changes[i].path
            == path
}

/// Every deleted file is deleted from the stores, every new or changed one is looked at, and
/// no other file is touched.
pub proof fn law_changes_are_told_apart(changes: Seq<ChangeView>)
    ensures
        forall|i: int|
            0 <= i < changes.len() && is_deleted((#[trigger] changes[i]).status) ==> deleted_in(
                changes,
            ).contains(changes[i].path),
        forall|i: int|
            0 <= i < changes.len() && is_updated((#[trigger] changes[i]).status) ==> updated_in(
                changes,
            ).contains(changes[i].path),
        forall|k: int|
            0 <= k < deleted_in(changes).len() ==> names_deleted(
                changes,
                #[trigger] deleted_in(changes)[k],
            ),
        forall|k: int|
            0 <= k < updated_in(changes).len() ==> names_updated(
                changes,
                #[trigger] updated_in(changes)[k],
            ),
        forall|i: int|
            0 <= i < changes.len() ==> !(is_deleted((#[trigger] changes[i]).status) && is_updated(
                changes[i].status,
            )),
    decreases changes.len(),
{
    reveal_strlit("D");
    reveal_strlit("A");
    reveal_strlit("M");
    assert("D"@[0] == 'D' && "A"@[0] == 'A' && "M"@[0] == 'M');
    if changes.len() > 0 {
        let rest = changes.drop_last();
        law_changes_are_told_apart(rest);
        let gone = deleted_in(changes);
        let gone_before = deleted_in(rest);
        let kept = updated_in(changes);
        let kept_before = updated_in(rest);
        assert forall|i: int|
            0 <= i < changes.len() && is_deleted((#[trigger] changes[i]).status) implies gone.contains(
            changes[i].path,
        ) by {
            if i < rest.len() {
                assert(rest[i] == changes[i]);
                let k = choose|k: int|
                    0 <= k < gone_before.len() && gone_before[k] == changes[i].path;
                assert(gone[k] == changes[i].path);
            } else {
                assert(gone[gone_before.len() as int] == changes[i].path);
            }
        }
        assert forall|i: int|
            0 <= i < changes.len() && is_updated((#[trigger] changes[i]).status) implies kept.contains(
            changes[i].path,
        ) by {
            if i < rest.len() {
                assert(rest[i] == changes[i]);
                let k = choose|k: int|
                    0 <= k < kept_before.len() && kept_before[k] == changes[i].path;
                assert(kept[k] == changes[i].path);
            } else {
                assert(kept[kept_before.len() as int] == changes[i].path);
            }
        }
        assert forall|k: int| 0 <= k < gone.len() implies names_deleted(
            changes,
            #[trigger] gone[k],
        ) by {
            if k < gone_before.len() {
                assert(gone[k] == gone_before[k]);
                assert(names_deleted(rest, gone_before[k]));
                let i = choose|i: int|
                    0 <= i < rest.len() && is_deleted((#[trigger] rest[i]).status) && rest[i].path
                        == gone_before[k];
                assert(changes[i] == rest[i]);
            } else {
                assert(changes[changes.len() - 1].path == gone[k]);
            }
        }
        assert forall|k: int| 0 <= k < kept.len() implies names_updated(
            changes,
            #[trigger] kept[k],
        ) by {
            if k < kept_before.len() {
                assert(kept[k] == kept_before[k]);
                assert(names_updated(rest, kept_before[k]));
                let i = choose|i: int|
                    0 <= i < rest.len() && is_updated((#[trigger] rest[i]).status) && rest[i].path
                        == kept_before[k];
                assert(changes[i] == rest[i]);
            } else {
                assert(changes[changes.len() - 1].path == kept[k]);
            }
        }
    }
}

/// The watchdog after a step of which it is known whether it is taken at all.
pub open spec fn if_taken(view: WatchView, taken: bool, event: WatchEventView) -> WatchView {
    if taken {
        watch_after(view, event)
    } else {
        view
    }
}

/// An update in which no step fails deletes the files that are gone, then indexes those of
/// the new and changed files that exist, then takes the commit that is checked out as the
/// one that is indexed, then announces its end, and waits.
pub proof fn law_update_runs_to_its_end(
    view: WatchView,
    pulled: Seq<char>,
    head: Seq<char>,
    diff: Seq<char>,
    flags: Seq<bool>,
    synced: Seq<char>,
)
    requires
        view.phase == PhaseView::SignalStart,
    ensures
        ({
            let changes = changes_in(view.directory, lines(diff));
            let gone = deleted_in(changes);
            let updated = updated_in(changes);
            let files = flagged(updated, flags);
            let one = watch_after(view, WatchEventView::Done);
            let two = watch_after(one, WatchEventView::Output(pulled));
            let three = watch_after(two, WatchEventView::Output(head));
            let listed = watch_after(three, WatchEventView::Output(diff));
            let deleted = if_taken(listed, gone.len() > 0, WatchEventView::Done);
            let checked = if_taken(deleted, updated.len() > 0, WatchEventView::Existing(flags));
            let indexed = if_taken(
                checked,
                updated.len() > 0 && files.len() > 0,
                WatchEventView::Done,
            );
            let noted = watch_after(indexed, WatchEventView::Output(synced));
            let ended = watch_after(noted, WatchEventView::Done);
            &&& gone.len() > 0 ==> action_of(listed) == ActionView::Delete(gone)
            &&& updated.len() > 0 ==> action_of(deleted) == ActionView::Check(updated)
            &&& updated.len() > 0 && files.len() > 0 ==> action_of(checked) == ActionView::Index(
                files,
            )
            &&& action_of(noted) == ActionView::Send(UpdateSignal::UpdateEnd)
            &&& ended == (WatchView {
                last_synced: Some(trim(synced)),
                phase: PhaseView::Sleep,
                ..view
            })
        }),
{
}

/// What the watchdog sends is what leads the orchestrator into an update and out of it.
pub proof fn law_signals_reach_the_orchestrator()
    ensures
        signalled_state(
            OrchestratorState::Normal,
            signal_of(encode_utf8(signal_name(UpdateSignal::UpdateStart))),
        ) == Some(OrchestratorState::Update),
        signalled_state(
            OrchestratorState::Update,
            signal_of(encode_utf8(signal_name(UpdateSignal::UpdateEnd))),
        ) == Some(OrchestratorState::Normal),
{
    let none = Seq::<char>::empty();
    let nothing = Seq::<u8>::empty();
    let start = signal_name(UpdateSignal::UpdateStart);
    let end = signal_name(UpdateSignal::UpdateEnd);
    assert(none + start + none =~= start);
    assert(none + end + none =~= end);
    assert(encode_utf8(start) + nothing =~= encode_utf8(start));
    assert(encode_utf8(end) + nothing =~= encode_utf8(end));
    law_signal_is_read_back(UpdateSignal::UpdateStart, none, none, nothing);
    law_signal_is_read_back(UpdateSignal::UpdateEnd, none, none, nothing);
}

// ---------------------------------------------------------------------------
// Which files are indexed
// ---------------------------------------------------------------------------

/// Paths are kept one by one and in order, each exactly if its flag is set.
pub proof fn law_paths_are_kept_one_by_one(
    a: Seq<Seq<char>>,
    f: Seq<bool>,
    b: Seq<Seq<char>>,
    g: Seq<bool>,
    path: Seq<char>,
)
    requires
        a.len() == f.len(),
        b.len() == g.len(),
    ensures
        flagged(a + b, f + g) == flagged(a, f) + flagged(b, g),
        flagged(seq![path], seq![true]) == seq![path],
        flagged(seq![path], seq![false]) == Seq::<Seq<char>>::empty(),
        flagged(Seq::empty(), g) == Seq::<Seq<char>>::empty(),
    decreases b.len(),
{
    let none = Seq::<Seq<char>>::empty();
    assert(seq![path].drop_last() =~= none);
    assert(flagged(none, seq![true]) =~= none);
    assert(flagged(none, seq![false]) =~= none);
    assert(none.push(path) =~= seq![path]);
    if b.len() == 0 {
        assert(a + b =~= a);
        assert(f + g =~= f);
        assert(flagged(a, f) + flagged(b, g) =~= flagged(a, f));
    } else {
        let c = b.drop_last();
        let h = g.drop_last();
        law_paths_are_kept_one_by_one(a, f, c, h, path);
        assert((a + b).drop_last() =~= a + c);
        assert((a + b).last() == b.last());
        lemma_flags_in_reach(a + c, f + h, f + g);
        lemma_flags_in_reach(c, h, g);
        assert((f + g)[(a + b).len() - 1] == g[b.len() - 1]);
        assert((flagged(a, f) + flagged(c, h)).push(b.last()) =~= flagged(a, f) + flagged(
            c,
            h,
        ).push(b.last()));
    }
}

proof fn lemma_flags_in_reach(paths: Seq<Seq<char>>, a: Seq<bool>, b: Seq<bool>)
    requires
        paths.len() <= a.len(),
        paths.len() <= b.len(),
        forall|i: int| 0 <= i < paths.len() ==> a[i] == b[i],
    ensures
        flagged(paths, a) == flagged(paths, b),
    decreases paths.len(),
{
    if paths.len() > 0 {
        lemma_flags_in_reach(paths.drop_last(), a, b);
        assert(a[paths.len() - 1] == b[paths.len() - 1]);
    }
}

/// Whether a list has the path at a position with a flag.
pub open spec fn has_flagged(paths: Seq<Seq<char>>, flags: Seq<bool>, path: Seq<char>) -> bool {
    exists|i: int| 0 <= i < paths.len() && #[trigger] flags[i] && paths[i] == path
}

/// Every path whose flag is set is kept, and no other is.
pub proof fn law_flagged_paths_are_kept(paths: Seq<Seq<char>>, flags: Seq<bool>)
    requires
        paths.len() == flags.len(),
    ensures
        forall|i: int|
            0 <= i < paths.len() && flags[i] ==> flagged(paths, flags).contains(#[trigger] paths[i]),
        forall|k: int|
            0 <= k < flagged(paths, flags).len() ==> has_flagged(
                paths,
                flags,
                #[trigger] flagged(paths, flags)[k],
            ),
    decreases paths.len(),
{
    if paths.len() > 0 {
        let rest = paths.drop_last();
        let less = flags.drop_last();
        law_flagged_paths_are_kept(rest, less);
        lemma_flags_in_reach(rest, less, flags);
        let before = flagged(rest, flags);
        let all = flagged(paths, flags);
        assert forall|i: int| 0 <= i < paths.len() && flags[i] implies all.contains(
            #[trigger] paths[i],
        ) by {
            if i < rest.len() {
                assert(less[i] && rest[i] == paths[i]);
                let k = choose|k: int| 0 <= k < before.len() && before[k] == rest[i];
                assert(all[k] == paths[i]);
            } else {
                assert(all[before.len() as int] == paths[i]);
            }
        }
        assert forall|k: int| 0 <= k < all.len() implies has_flagged(
            paths,
            flags,
            #[trigger] all[k],
        ) by {
            if k < before.len() {
                assert(all[k] == before[k]);
                assert(has_flagged(rest, less, before[k]));
                let i = choose|i: int|
                    0 <= i < rest.len() && #[trigger] less[i] && rest[i] == before[k];
                assert(flags[i] && paths[i] == all[k]);
            } else {
                assert(flags[paths.len() - 1] && paths[paths.len() - 1] == all[k]);
            }
        }
    }
}

/// Every new or changed file that exists is indexed, and no other: once it is known which of
/// them exist, those are what is to be indexed next, unless there are none.
pub proof fn law_existing_files_are_indexed(
    view: WatchView,
    updated: Seq<Seq<char>>,
    flags: Seq<bool>,
    at: int,
)
    requires
        view.phase == (PhaseView::CheckFiles { updated }),
        updated.len() == flags.len(),
    ensures
        ({
            let next = watch_after(view, WatchEventView::Existing(flags));
            &&& action_of(view) == ActionView::Check(updated)
            &&& 0 <= at < updated.len() && flags[at] ==> {
                &&& action_of(next) is Index
                &&& action_of(next)->Index_0.contains(updated[at])
            }
            &&& action_of(next) is Index ==> forall|k: int|
                0 <= k < action_of(next)->Index_0.len() ==> has_flagged(
                    updated,
                    flags,
                    #[trigger] action_of(next)->Index_0[k],
                )
            &&& (forall|i: int| 0 <= i < updated.len() ==> !#[trigger] flags[i]) ==> next.phase
                == PhaseView::ReadSyncedHead
        }),
{
    law_flagged_paths_are_kept(updated, flags);
    let files = flagged(updated, flags);
    if 0 <= at < updated.len() && flags[at] {
        assert(files.contains(updated[at]));
    }
    if forall|i: int| 0 <= i < updated.len() ==> !#[trigger] flags[i] {
        if files.len() > 0 {
            assert(has_flagged(updated, flags, files[0]));
        }
    }
}

/// Lines of git are read one by one and in order. A line with a status, white space and a
/// path names a change: the path in the code base, with that status. A line without two
/// words names none.
pub proof fn law_changes_are_read_line_by_line(
    directory: Seq<char>,
    a: Seq<Seq<char>>,
    b: Seq<Seq<char>>,
    line: Seq<char>,
)
    ensures
        changes_in(directory, a + b) == changes_in(directory, a) + changes_in(directory, b),
        changes_in(directory, Seq::empty()) == Seq::<ChangeView>::empty(),
        first_two_words(line) is None ==> changes_in(directory, seq![line]) == Seq::<
            ChangeView,
        >::empty(),
        first_two_words(line) matches Some((status, path)) ==> {
            &&& changes_in(directory, seq![line]).len() == 1
            &&& changes_in(directory, seq![line])[0].status == status
            &&& changes_in(directory, seq![line])[0].path == join_path(directory, path)
        },
    decreases b.len(),
{
    let none = Seq::<Seq<char>>::empty();
    let nothing = Seq::<ChangeView>::empty();
    assert(seq![line].drop_last() =~= none);
    assert(seq![line].last() == line);
    assert(changes_in(directory, none) =~= nothing);
    if b.len() == 0 {
        assert(a + b =~= a);
        assert(changes_in(directory, a) + changes_in(directory, b) =~= changes_in(directory, a));
    } else {
        let c = b.drop_last();
        law_changes_are_read_line_by_line(directory, a, c, line);
        assert((a + b).drop_last() =~= a + c);
        assert((a + b).last() == b.last());
        match first_two_words(b.last()) {
            Some((status, path)) => {
                let change = ChangeView { path: join_path(directory, path), status };
                assert((changes_in(directory, a) + changes_in(directory, c)).push(change)
                    =~= changes_in(directory, a) + changes_in(directory, c).push(change));
            },
            None => {},
        }
    }
}

/// A status, a tab and a path, neither with white space in it, are a change of that path.
pub proof fn law_status_and_path_are_a_change(
    directory: Seq<char>,
    status: Seq<char>,
    path: Seq<char>,
)
    requires
        status.len() > 0,
        forall|i: int| 0 <= i < status.len() ==> !is_white_space(#[trigger] status[i]),
        path.len() > 0,
        forall|i: int| 0 <= i < path.len() ==> !is_white_space(#[trigger] path[i]),
    ensures
        changes_in(directory, seq![status + seq!['\t'] + path]).len() == 1,
        changes_in(directory, seq![status + seq!['\t'] + path])[0].status == status,
        changes_in(directory, seq![status + seq!['\t'] + path])[0].path == join_path(
            directory,
            path,
        ),
{
    let none = Seq::<char>::empty();
    let line = status + seq!['\t'] + path;
    law_words_stand_between_white_space(none, status, seq!['\t'], path, none);
    assert(none + status + seq!['\t'] + path + none =~= line);
    law_changes_are_read_line_by_line(directory, Seq::empty(), Seq::empty(), line);
}

/// Changes are told apart one by one and in order: the paths with the status `D` are deleted,
/// those with `A` or `M` are looked at, and those with any other status are neither.
pub proof fn law_changes_are_told_apart_one_by_one(
    a: Seq<ChangeView>,
    b: Seq<ChangeView>,
    change: ChangeView,
)
    ensures
        deleted_in(a + b) == deleted_in(a) + deleted_in(b),
        updated_in(a + b) == updated_in(a) + updated_in(b),
        change.status == seq!['D'] ==> deleted_in(seq![change]) == seq![change.path],
        change.status != seq!['D'] ==> deleted_in(seq![change]) == Seq::<Seq<char>>::empty(),
        change.status == seq!['A'] || change.status == seq!['M'] ==> updated_in(seq![change])
            == seq![change.path],
        change.status != seq!['A'] && change.status != seq!['M'] ==> updated_in(seq![change])
            == Seq::<Seq<char>>::empty(),
        deleted_in(Seq::empty()) == Seq::<Seq<char>>::empty(),
        updated_in(Seq::empty()) == Seq::<Seq<char>>::empty(),
    decreases b.len(),
{
    reveal_strlit("D");
    reveal_strlit("A");
    reveal_strlit("M");
    assert("D"@ =~= seq!['D'] && "A"@ =~= seq!['A'] && "M"@ =~= seq!['M']);
    let none = Seq::<ChangeView>::empty();
    let nothing = Seq::<Seq<char>>::empty();
    assert(seq![change].drop_last() =~= none);
    assert(deleted_in(none) =~= nothing);
    assert(updated_in(none) =~= nothing);
    assert(nothing.push(change.path) =~= seq![change.path]);
    if b.len() == 0 {
        assert(a + b =~= a);
        assert(deleted_in(a) + deleted_in(b) =~= deleted_in(a));
        assert(updated_in(a) + updated_in(b) =~= updated_in(a));
    } else {
        let c = b.drop_last();
        law_changes_are_told_apart_one_by_one(a, c, change);
        assert((a + b).drop_last() =~= a + c);
        assert((a + b).last() == b.last());
        let path = b.last().path;
        assert((deleted_in(a) + deleted_in(c)).push(path) =~= deleted_in(a) + deleted_in(c).push(
            path,
        ));
        assert((updated_in(a) + updated_in(c)).push(path) =~= updated_in(a) + updated_in(c).push(
            path,
        ));
    }
}

// ---------------------------------------------------------------------------
// The rounds
// ---------------------------------------------------------------------------

/// A number that git prints is the number of commits, whatever white space stands around it;
/// what is no number counts as none.
pub proof fn law_commits_are_counted(n: nat, before: Seq<char>, after: Seq<char>, other: Seq<char>)
    requires
        n <= usize::MAX,
        forall|i: int| 0 <= i < before.len() ==> is_white_space(#[trigger] before[i]),
        forall|i: int| 0 <= i < after.len() ==> is_white_space(#[trigger] after[i]),
    ensures
        commit_count(before + decimal(n) + after) == n,
        parse_number(trim(other), usize::MAX as nat) is None ==> commit_count(other) == 0,
{
    let digits = decimal(n);
    lemma_decimal(n);
    assert(is_digit(digits[0]));
    assert(is_digit(digits[digits.len() - 1]));
    law_trimming_takes_off_white_space(before, digits, after);
    law_parse_reads_decimal(n, usize::MAX as nat);
}

/// What the watchdog asks of git: the commit that is checked out; how many commits there are
/// from the last update up to it; the commits of its branch; and which files differ between
/// the last update and the commit that was pulled.
pub proof fn law_commands_for_git(view: WatchView, last: Seq<char>, new_commit: Seq<char>)
    requires
        view.last_synced == Some(last),
    ensures
        view.phase is ReadHead || view.phase is ReadPulledHead || view.phase is ReadSyncedHead
            ==> action_of(view) == ActionView::Git(seq!["rev-parse"@, "HEAD"@]),
        view.phase is CountCommits ==> action_of(view) == ActionView::Git(
            seq!["rev-list"@, "--count"@, last + seq!['.', '.'] + "HEAD"@],
        ),
        view.phase is Pull ==> action_of(view) == ActionView::Git(
            seq!["pull"@, "origin"@, view.branch],
        ),
        view.phase == (PhaseView::ListChanges { new_commit }) ==> action_of(view)
            == ActionView::Git(
            seq!["diff"@, "--name-status"@, last + seq!['.', '.'] + new_commit],
        ),
{
    reveal_strlit("..");
    assert(".."@ =~= seq!['.', '.']);
    assert(commit_range(last, "HEAD"@) =~= last + seq!['.', '.'] + "HEAD"@);
    assert(commit_range(last, new_commit) =~= last + seq!['.', '.'] + new_commit);
}

/// The first look takes the commit that is checked out as the one that is indexed, and waits.
/// A later look counts the commits, and waits where they are fewer than the threshold. After
/// waiting the watchdog looks again.
pub proof fn law_looks_without_an_update(view: WatchView, text: Seq<char>)
    ensures
        view.phase == PhaseView::ReadHead && view.last_synced is None ==> watch_after(
            view,
            WatchEventView::Output(text),
        ) == (WatchView { last_synced: Some(trim(text)), phase: PhaseView::Sleep, ..view }),
        view.phase == PhaseView::ReadHead && view.last_synced is Some ==> watch_after(
            view,
            WatchEventView::Output(text),
        ) == (WatchView { phase: PhaseView::CountCommits, ..view }),
        view.phase == PhaseView::CountCommits && commit_count(text) < view.threshold ==> watch_after(
            view,
            WatchEventView::Output(text),
        ) == (WatchView { phase: PhaseView::Sleep, ..view }),
        view.phase == PhaseView::Sleep ==> action_of(view) == ActionView::Sleep && watch_after(
            view,
            WatchEventView::Done,
        ) == (WatchView { phase: PhaseView::ReadHead, ..view }),
{
}

/// An update is announced, then pulled, and then the changes up to the commit that was pulled
/// are listed.
pub proof fn law_updates_are_pulled(view: WatchView, pulled: Seq<char>, head: Seq<char>)
    requires
        view.phase == PhaseView::SignalStart,
    ensures
        ({
            let one = watch_after(view, WatchEventView::Done);
            let two = watch_after(one, WatchEventView::Output(pulled));
            let three = watch_after(two, WatchEventView::Output(head));
            &&& action_of(view) == ActionView::Send(UpdateSignal::UpdateStart)
            &&& one == (WatchView { phase: PhaseView::Pull, ..view })
            &&& two == (WatchView { phase: PhaseView::ReadPulledHead, ..view })
            &&& three == (WatchView {
                phase: PhaseView::ListChanges { new_commit: trim(head) },
                ..view
            })
        }),
{
}

/// The watchdog waits for the outcome of what it does: a report of another kind changes
/// nothing, unless it is a failure.
pub proof fn law_other_reports_change_nothing(view: WatchView, event: WatchEventView)
    requires
        !(event is Failed),
        action_of(view) is Git ==> !(event is Output),
        action_of(view) is Check ==> !(event is Existing),
        action_of(view) is Send || action_of(view) is Delete || action_of(view) is Index
            || action_of(view) is Sleep ==> !(event is Done),
    ensures
        watch_after(view, event) == view,
{
}

/// The watchdog goes by the directory, the branch and the threshold of its configuration.
pub proof fn law_watchdog_goes_by_the_configuration(watchdog: WatchdogProcess)
    ensures
        watchdog@.directory == watchdog.runtime.config.codebase.directory_path@,
        watchdog@.branch == watchdog.runtime.config.codebase.git_branch@,
        watchdog@.threshold == watchdog.runtime.config.codebase.commit_threshold,
        watchdog.last_synced_commit is None ==> watchdog@.last_synced is None,
        watchdog.last_synced_commit matches Some(commit) ==> watchdog@.last_synced == Some(commit@),
        watchdog@.phase == watchdog.phase@,
{
}

} // verus!
