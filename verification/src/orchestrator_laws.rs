//! What holds of the supervised processes in every state.

use vstd::prelude::*;

use crate::orchestrator::{
    all_replaced, all_stopped, child_command, comes_back, entered, forces_shutdown, plan_of,
    replaced, runs_in, settled, signalled_state, started, stop_commands, stopped, with_plan,
    without, OrchestratorState, OrchestratorView, Plan, ProcessCommand, ProcessRole,
};
use crate::types::UpdateSignal;

verus! {

// ---------------------------------------------------------------------------
// The processes of each state
// ---------------------------------------------------------------------------

proof fn lemma_without(children: Seq<ProcessRole>, role: ProcessRole)
    ensures
        children.no_duplicates() ==> without(children, role).no_duplicates(),
        forall|other: ProcessRole| #[trigger]
            without(children, role).contains(other) <==> children.contains(other) && other != role,
    decreases children.len(),
{
    if children.len() > 0 {
        let rest = children.drop_last();
        let last = children.last();
        lemma_without(rest, role);
        let before = without(rest, role);
        let all = without(children, role);
        assert forall|other: ProcessRole| #[trigger] all.contains(other) <==> children.contains(
            other,
        ) && other != role by {
            if all.contains(other) {
                let k = choose|k: int| 0 <= k < all.len() && all[k] == other;
                if k < before.len() {
                    assert(before[k] == other);
                    assert(before.contains(other));
                    let i = choose|i: int| 0 <= i < rest.len() && rest[i] == other;
                    assert(children[i] == other);
                } else {
                    assert(children[children.len() - 1] == other);
                }
            }
            if children.contains(other) && other != role {
                let i = choose|i: int| 0 <= i < children.len() && children[i] == other;
                if i < rest.len() {
                    assert(rest[i] == other);
                    assert(before.contains(other));
                    let k = choose|k: int| 0 <= k < before.len() && before[k] == other;
                    assert(all[k] == other);
                } else {
                    assert(all[before.len() as int] == other);
                }
            }
        }
        if children.no_duplicates() {
            assert forall|i: int, j: int|
                0 <= i < rest.len() && 0 <= j < rest.len() && i != j implies rest[i] != rest[j] by {
                assert(rest[i] == children[i] && rest[j] == children[j]);
            }
            if last != role {
                assert(!before.contains(last)) by {
                    if before.contains(last) {
                        assert(rest.contains(last));
                        let i = choose|i: int| 0 <= i < rest.len() && rest[i] == last;
                        assert(children[i] == children[children.len() - 1]);
                    }
                }
                lemma_push_role(before, last);
            }
        }
    }
}

proof fn lemma_push_role(children: Seq<ProcessRole>, role: ProcessRole)
    requires
        !children.contains(role),
    ensures
        children.no_duplicates() ==> children.push(role).no_duplicates(),
        forall|other: ProcessRole| #[trigger]
            children.push(role).contains(other) <==> children.contains(other) || other == role,
{
    let all = children.push(role);
    assert forall|other: ProcessRole| #[trigger] all.contains(other) <==> children.contains(other)
        || other == role by {
        if all.contains(other) {
            let k = choose|k: int| 0 <= k < all.len() && all[k] == other;
            if k < children.len() {
                assert(children[k] == other);
            }
        }
        if children.contains(other) {
            let k = choose|k: int| 0 <= k < children.len() && children[k] == other;
            assert(all[k] == other);
        }
        if other == role {
            assert(all[children.len() as int] == role);
        }
    }
    if children.no_duplicates() {
        assert forall|i: int, j: int|
            0 <= i < all.len() && 0 <= j < all.len() && i != j implies all[i] != all[j] by {
            if i < children.len() && j < children.len() {
                assert(children[i] != children[j]);
            } else if i < children.len() {
                assert(children[i] != role);
            } else {
                assert(children[j] != role);
            }
        }
    }
}

proof fn lemma_started(plan: Plan, role: ProcessRole)
    ensures
        plan.children.no_duplicates() ==> started(plan, role).children.no_duplicates(),
        forall|other: ProcessRole| #[trigger]
            started(plan, role).children.contains(other) <==> plan.children.contains(other) || other
                == role,
{
    if !plan.children.contains(role) {
        lemma_push_role(plan.children, role);
    }
}

proof fn lemma_stopped(plan: Plan, role: ProcessRole)
    ensures
        plan.children.no_duplicates() ==> stopped(plan, role).children.no_duplicates(),
        forall|other: ProcessRole| #[trigger]
            stopped(plan, role).children.contains(other) <==> plan.children.contains(other) && other
                != role,
{
    if plan.children.contains(role) {
        lemma_without(plan.children, role);
    }
}

/// After a state was entered, exactly its processes run, whatever ran before.
pub proof fn law_entering_a_state_settles(view: OrchestratorView, next: OrchestratorState)
    requires
        view.children.no_duplicates(),
        next != OrchestratorState::Spinup,
    ensures
        settled(with_plan(view, next, entered(plan_of(view), next))),
{
    let plan = plan_of(view);
    match next {
        OrchestratorState::Spinup => {},
        OrchestratorState::Normal => {
            let one = started(plan, ProcessRole::Ingestor);
            let two = started(one, ProcessRole::Mcp);
            lemma_started(plan, ProcessRole::Ingestor);
            lemma_started(one, ProcessRole::Mcp);
            lemma_started(two, ProcessRole::Watchdog);
        },
        OrchestratorState::Update => {
            let one = stopped(plan, ProcessRole::Ingestor);
            let two = stopped(one, ProcessRole::Mcp);
            lemma_stopped(plan, ProcessRole::Ingestor);
            lemma_stopped(one, ProcessRole::Mcp);
            lemma_started(two, ProcessRole::Watchdog);
        },
        OrchestratorState::Closing => {},
    }
}

/// However many processes ended, exactly those of the state run when they were replaced.
pub proof fn law_ended_processes_come_back(view: OrchestratorView, ended: Seq<ProcessRole>)
    requires
        settled(view),
    ensures
        settled(with_plan(view, view.state, all_replaced(plan_of(view), view.state, ended))),
    decreases ended.len(),
{
    if ended.len() > 0 {
        let rest = ended.drop_last();
        let role = ended.last();
        law_ended_processes_come_back(view, rest);
        let plan = all_replaced(plan_of(view), view.state, rest);
        if plan.children.contains(role) {
            lemma_without(plan.children, role);
            let left = Plan { children: without(plan.children, role), ..plan };
            lemma_started(left, role);
            assert(runs_in(view.state, role));
        }
    }
}

// ---------------------------------------------------------------------------
// The commands
// ---------------------------------------------------------------------------

/// The processes that run after commands were carried out, if each of them makes sense: only
/// what does not run is started, only what runs is stopped.
pub open spec fn carried_out(
    running: Set<ProcessRole>,
    commands: Seq<ProcessCommand>,
) -> Option<Set<ProcessRole>>
    decreases commands.len(),
{
    if commands.len() == 0 {
        Some(running)
    } else {
        match carried_out(running, commands.drop_last()) {
            None => None,
            Some(before) => match commands.last() {
                ProcessCommand::Start(role) => if before.contains(role) {
                    None
                } else {
                    Some(before.insert(role))
                },
                ProcessCommand::Stop(role) => if before.contains(role) {
                    Some(before.remove(role))
                } else {
                    None
                },
                ProcessCommand::RemoveSocket => Some(before),
            },
        }
    }
}

/// The processes that are listed as running.
pub open spec fn listed(children: Seq<ProcessRole>) -> Set<ProcessRole> {
    Set::new(|role: ProcessRole| children.contains(role))
}

proof fn lemma_carried_out_push(
    running: Set<ProcessRole>,
    commands: Seq<ProcessCommand>,
    command: ProcessCommand,
)
    ensures
        carried_out(running, commands.push(command)) == (match carried_out(running, commands) {
            None => None,
            Some(before) => match command {
                ProcessCommand::Start(role) => if before.contains(role) {
                    None
                } else {
                    Some(before.insert(role))
                },
                ProcessCommand::Stop(role) => if before.contains(role) {
                    Some(before.remove(role))
                } else {
                    None
                },
                ProcessCommand::RemoveSocket => Some(before),
            },
        }),
{
    assert(commands.push(command).drop_last() =~= commands);
}

proof fn lemma_started_carries_out(running: Set<ProcessRole>, plan: Plan, role: ProcessRole)
    requires
        carried_out(running, plan.commands) == Some(listed(plan.children)),
    ensures
        carried_out(running, started(plan, role).commands) == Some(
            listed(started(plan, role).children),
        ),
{
    if !plan.children.contains(role) {
        lemma_carried_out_push(running, plan.commands, ProcessCommand::Start(role));
        lemma_push_role(plan.children, role);
        assert(listed(plan.children.push(role)) =~= listed(plan.children).insert(role));
    }
}

proof fn lemma_stopped_carries_out(running: Set<ProcessRole>, plan: Plan, role: ProcessRole)
    requires
        carried_out(running, plan.commands) == Some(listed(plan.children)),
    ensures
        carried_out(running, stopped(plan, role).commands) == Some(
            listed(stopped(plan, role).children),
        ),
{
    if plan.children.contains(role) {
        lemma_carried_out_push(running, plan.commands, ProcessCommand::Stop(role));
        lemma_without(plan.children, role);
        assert(listed(without(plan.children, role)) =~= listed(plan.children).remove(role));
    }
}

proof fn lemma_stop_commands(children: Seq<ProcessRole>, n: int)
    requires
        children.no_duplicates(),
        0 <= n <= children.len(),
    ensures
        carried_out(listed(children), stop_commands(children).take(n)) == Some(
            listed(children.skip(n)),
        ),
    decreases n,
{
    if n == 0 {
        assert(stop_commands(children).take(0) =~= Seq::empty());
        assert(children.skip(0) =~= children);
    } else {
        lemma_stop_commands(children, n - 1);
        let role = children[n - 1];
        assert(stop_commands(children).take(n) =~= stop_commands(children).take(n - 1).push(
            ProcessCommand::Stop(role),
        ));
        lemma_carried_out_push(
            listed(children),
            stop_commands(children).take(n - 1),
            ProcessCommand::Stop(role),
        );
        let more = children.skip(n - 1);
        let less = children.skip(n);
        assert(more[0] == role);
        assert(listed(less) =~= listed(more).remove(role)) by {
            assert forall|other: ProcessRole| #[trigger] less.contains(other) <==> more.contains(
                other,
            ) && other != role by {
                if less.contains(other) {
                    let k = choose|k: int| 0 <= k < less.len() && less[k] == other;
                    assert(more[k + 1] == other);
                    assert(children[n + k] != children[n - 1]);
                }
                if more.contains(other) && other != role {
                    let k = choose|k: int| 0 <= k < more.len() && more[k] == other;
                    assert(less[k - 1] == other);
                }
            }
        }
    }
}

/// Carrying out the commands with which a state is entered starts nothing twice, stops
/// nothing that does not run, and leaves exactly the processes that are listed.
pub proof fn law_transition_commands_fit(view: OrchestratorView, next: OrchestratorState)
    requires
        view.children.no_duplicates(),
    ensures
        carried_out(listed(view.children), entered(plan_of(view), next).commands) == Some(
            listed(entered(plan_of(view), next).children),
        ),
{
    let running = listed(view.children);
    let plan = plan_of(view);
    match next {
        OrchestratorState::Spinup => {},
        OrchestratorState::Normal => {
            let one = started(plan, ProcessRole::Ingestor);
            let two = started(one, ProcessRole::Mcp);
            lemma_started_carries_out(running, plan, ProcessRole::Ingestor);
            lemma_started_carries_out(running, one, ProcessRole::Mcp);
            lemma_started_carries_out(running, two, ProcessRole::Watchdog);
        },
        OrchestratorState::Update => {
            let one = stopped(plan, ProcessRole::Ingestor);
            let two = stopped(one, ProcessRole::Mcp);
            lemma_stopped_carries_out(running, plan, ProcessRole::Ingestor);
            lemma_stopped_carries_out(running, one, ProcessRole::Mcp);
            lemma_started_carries_out(running, two, ProcessRole::Watchdog);
        },
        OrchestratorState::Closing => {
            let stops = stop_commands(view.children);
            lemma_stop_commands(view.children, view.children.len() as int);
            assert(stops.take(view.children.len() as int) =~= stops);
            assert(Seq::<ProcessCommand>::empty() + stops =~= stops);
            assert(view.children.skip(view.children.len() as int) =~= Seq::empty());
            lemma_carried_out_push(running, stops, ProcessCommand::RemoveSocket);
        },
    }
}

/// The same holds of the commands that replace processes that ended: those are no longer
/// running when the commands are carried out.
pub proof fn law_replacement_commands_fit(view: OrchestratorView, ended: Seq<ProcessRole>)
    requires
        view.children.no_duplicates(),
        ended.no_duplicates(),
        forall|role: ProcessRole| #[trigger]
            ended.contains(role) ==> view.children.contains(role),
    ensures
        carried_out(
            listed(view.children).difference(listed(ended)),
            all_replaced(plan_of(view), view.state, ended).commands,
        ) == Some(listed(all_replaced(plan_of(view), view.state, ended).children)),
{
    lemma_replacements(view, ended, ended.len() as int);
    let plan = all_replaced(plan_of(view), view.state, ended);
    assert(ended.take(ended.len() as int) =~= ended);
    assert(ended.skip(ended.len() as int) =~= Seq::empty());
    assert(listed(plan.children).difference(listed(Seq::empty())) =~= listed(plan.children));
}

proof fn lemma_replacements(view: OrchestratorView, ended: Seq<ProcessRole>, n: int)
    requires
        view.children.no_duplicates(),
        ended.no_duplicates(),
        forall|role: ProcessRole| #[trigger]
            ended.contains(role) ==> view.children.contains(role),
        0 <= n <= ended.len(),
    ensures
        ({
            let plan = all_replaced(plan_of(view), view.state, ended.take(n));
            let left = ended.skip(n);
            &&& carried_out(
                listed(view.children).difference(listed(ended)),
                plan.commands,
            ) == Some(listed(plan.children).difference(listed(left)))
            &&& forall|role: ProcessRole| #[trigger]
                left.contains(role) ==> plan.children.contains(role)
        }),
    decreases n,
{
    let running = listed(view.children).difference(listed(ended));
    if n == 0 {
        assert(ended.take(0) =~= Seq::empty());
        assert(ended.skip(0) =~= ended);
    } else {
        lemma_replacements(view, ended, n - 1);
        let before = all_replaced(plan_of(view), view.state, ended.take(n - 1));
        let role = ended[n - 1];
        let more = ended.skip(n - 1);
        let less = ended.skip(n);
        assert(ended.take(n).drop_last() =~= ended.take(n - 1));
        assert(ended.take(n).last() == role);
        let after = replaced(before, view.state, role);
        assert(more[0] == role);
        assert(more.contains(role));
        assert forall|other: ProcessRole| #[trigger] less.contains(other) <==> more.contains(other)
            && other != role by {
            if less.contains(other) {
                let k = choose|k: int| 0 <= k < less.len() && less[k] == other;
                assert(more[k + 1] == other);
                assert(ended[n + k] != ended[n - 1]);
            }
            if more.contains(other) && other != role {
                let k = choose|k: int| 0 <= k < more.len() && more[k] == other;
                assert(less[k - 1] == other);
            }
        }
        lemma_without(before.children, role);
        let rest = Plan { children: without(before.children, role), ..before };
        if comes_back(view.state, role) {
            lemma_push_role(rest.children, role);
            lemma_carried_out_push(running, before.commands, ProcessCommand::Start(role));
            assert(listed(after.children).difference(listed(less)) =~= listed(
                before.children,
            ).difference(listed(more)).insert(role));
        } else {
            assert(listed(after.children).difference(listed(less)) =~= listed(
                before.children,
            ).difference(listed(more)));
        }
        assert forall|other: ProcessRole| #[trigger] less.contains(other) implies
            after.children.contains(other) by {
            assert(more.contains(other));
        }
    }
}

// ---------------------------------------------------------------------------
// Updates and the end
// ---------------------------------------------------------------------------

/// An update stops the ingestor and the search server, and its end starts them again; the
/// watchdog runs all the time.
pub proof fn law_update_ends_where_it_began(view: OrchestratorView)
    requires
        settled(view),
        view.state == OrchestratorState::Normal,
    ensures
        signalled_state(view.state, Some(UpdateSignal::UpdateStart)) == Some(
            OrchestratorState::Update,
        ),
        signalled_state(OrchestratorState::Update, Some(UpdateSignal::UpdateEnd)) == Some(
            OrchestratorState::Normal,
        ),
        ({
            let first = entered(plan_of(view), OrchestratorState::Update);
            let during = with_plan(view, OrchestratorState::Update, first);
            let second = entered(plan_of(during), OrchestratorState::Normal);
            let after = with_plan(during, OrchestratorState::Normal, second);
            &&& first.commands == seq![
                ProcessCommand::Stop(ProcessRole::Ingestor),
                ProcessCommand::Stop(ProcessRole::Mcp),
            ]
            &&& second.commands == seq![
                ProcessCommand::Start(ProcessRole::Ingestor),
                ProcessCommand::Start(ProcessRole::Mcp),
            ]
            &&& settled(during)
            &&& settled(after)
            &&& after.state == view.state
            &&& listed(after.children) == listed(view.children)
        }),
{
    let plan = plan_of(view);
    let first = entered(plan, OrchestratorState::Update);
    let during = with_plan(view, OrchestratorState::Update, first);
    let second = entered(plan_of(during), OrchestratorState::Normal);
    let after = with_plan(during, OrchestratorState::Normal, second);
    law_entering_a_state_settles(view, OrchestratorState::Update);
    law_entering_a_state_settles(during, OrchestratorState::Normal);
    let one = stopped(plan, ProcessRole::Ingestor);
    let two = stopped(one, ProcessRole::Mcp);
    lemma_stopped(plan, ProcessRole::Ingestor);
    lemma_stopped(one, ProcessRole::Mcp);
    assert(plan.children.contains(ProcessRole::Ingestor));
    assert(one.children.contains(ProcessRole::Mcp));
    assert(two.children.contains(ProcessRole::Watchdog));
    assert(first.commands =~= seq![
        ProcessCommand::Stop(ProcessRole::Ingestor),
        ProcessCommand::Stop(ProcessRole::Mcp),
    ]);
    let three = started(plan_of(during), ProcessRole::Ingestor);
    let four = started(three, ProcessRole::Mcp);
    lemma_started(plan_of(during), ProcessRole::Ingestor);
    lemma_started(three, ProcessRole::Mcp);
    assert(!during.children.contains(ProcessRole::Ingestor));
    assert(!three.children.contains(ProcessRole::Mcp));
    assert(four.children.contains(ProcessRole::Watchdog));
    assert(second.commands =~= seq![
        ProcessCommand::Start(ProcessRole::Ingestor),
        ProcessCommand::Start(ProcessRole::Mcp),
    ]);
    assert forall|role: ProcessRole| #[trigger]
        after.children.contains(role) == view.children.contains(role) by {
        assert(runs_in(after.state, role) == runs_in(view.state, role));
    }
    assert(listed(after.children) =~= listed(view.children));
}

/// Once everything is closed it stays so: no signal changes the state, and to shut down once
/// more stops nothing.
pub proof fn law_closing_is_final(view: OrchestratorView, signal: Option<UpdateSignal>)
    requires
        settled(view),
        view.state == OrchestratorState::Closing,
    ensures
        signalled_state(view.state, signal) is None,
        all_stopped(plan_of(view)).commands == seq![ProcessCommand::RemoveSocket],
        all_stopped(plan_of(view)).children == view.children,
{
    assert(view.children.len() == 0) by {
        if view.children.len() > 0 {
            assert(view.children.contains(view.children[0]));
        }
    }
    assert(all_stopped(plan_of(view)).commands =~= seq![ProcessCommand::RemoveSocket]);
    assert(view.children =~= Seq::empty());
}

// ---------------------------------------------------------------------------
// Step by step
// ---------------------------------------------------------------------------

proof fn lemma_without_is_filter(children: Seq<ProcessRole>, role: ProcessRole)
    ensures
        without(children, role) == children.filter(|other: ProcessRole| other != role),
    decreases children.len(),
{
    reveal(Seq::filter);
    if children.len() > 0 {
        lemma_without_is_filter(children.drop_last(), role);
    } else {
        assert(without(children, role) =~= children.filter(|other: ProcessRole| other != role));
    }
}

/// In the normal state all three processes run, during an update the watchdog alone, and when
/// everything is closed none.
pub proof fn law_who_runs_in_a_state(view: OrchestratorView)
    requires
        view.children.no_duplicates(),
    ensures
        ({
            let normal = entered(plan_of(view), OrchestratorState::Normal).children;
            let update = entered(plan_of(view), OrchestratorState::Update).children;
            let closing = entered(plan_of(view), OrchestratorState::Closing).children;
            &&& normal.contains(ProcessRole::Ingestor)
            &&& normal.contains(ProcessRole::Mcp)
            &&& normal.contains(ProcessRole::Watchdog)
            &&& normal.len() == 3
            &&& update == seq![ProcessRole::Watchdog]
            &&& closing.len() == 0
            &&& entered(plan_of(view), OrchestratorState::Spinup) == plan_of(view)
        }),
{
    law_entering_a_state_settles(view, OrchestratorState::Normal);
    law_entering_a_state_settles(view, OrchestratorState::Update);
    let normal = entered(plan_of(view), OrchestratorState::Normal).children;
    let update = entered(plan_of(view), OrchestratorState::Update).children;
    let all = with_plan(
        view,
        OrchestratorState::Normal,
        entered(plan_of(view), OrchestratorState::Normal),
    );
    let some = with_plan(
        view,
        OrchestratorState::Update,
        entered(plan_of(view), OrchestratorState::Update),
    );
    assert(all.children == normal && some.children == update);
    assert(runs_in(all.state, ProcessRole::Ingestor));
    assert(normal.contains(ProcessRole::Ingestor));
    assert(normal.contains(ProcessRole::Mcp));
    assert(normal.contains(ProcessRole::Watchdog));
    let i = normal.index_of(ProcessRole::Ingestor);
    let m = normal.index_of(ProcessRole::Mcp);
    let w = normal.index_of(ProcessRole::Watchdog);
    if normal.len() > 3 {
        let x = if 0 != i && 0 != m && 0 != w {
            0int
        } else if 1 != i && 1 != m && 1 != w {
            1
        } else if 2 != i && 2 != m && 2 != w {
            2
        } else {
            3
        };
        assert(normal[x] == ProcessRole::Ingestor || normal[x] == ProcessRole::Mcp || normal[x]
            == ProcessRole::Watchdog);
        assert(normal[i] == ProcessRole::Ingestor && normal[m] == ProcessRole::Mcp && normal[w]
            == ProcessRole::Watchdog);
    }
    assert(update.contains(ProcessRole::Watchdog));
    if update.len() > 1 {
        assert(update.contains(update[0]) && update.contains(update[1]));
        assert(update[0] == ProcessRole::Watchdog && update[1] == ProcessRole::Watchdog);
    }
    assert(update.contains(update[0]));
    assert(update =~= seq![ProcessRole::Watchdog]);
}

/// A list of one command, or of none.
spec fn only_if(condition: bool, command: ProcessCommand) -> Seq<ProcessCommand> {
    if condition {
        seq![command]
    } else {
        Seq::empty()
    }
}

/// The normal state starts the ingestor, the search server and the watchdog, in this order,
/// each unless it runs.
pub proof fn law_normal_state_starts_what_is_missing(view: OrchestratorView)
    ensures
        entered(plan_of(view), OrchestratorState::Normal).commands == (if view.children.contains(
            ProcessRole::Ingestor,
        ) {
            Seq::<ProcessCommand>::empty()
        } else {
            seq![ProcessCommand::Start(ProcessRole::Ingestor)]
        }) + (if view.children.contains(ProcessRole::Mcp) {
            Seq::<ProcessCommand>::empty()
        } else {
            seq![ProcessCommand::Start(ProcessRole::Mcp)]
        }) + (if view.children.contains(ProcessRole::Watchdog) {
            Seq::<ProcessCommand>::empty()
        } else {
            seq![ProcessCommand::Start(ProcessRole::Watchdog)]
        }),
{
    let plan = plan_of(view);
    let one = started(plan, ProcessRole::Ingestor);
    let two = started(one, ProcessRole::Mcp);
    let three = started(two, ProcessRole::Watchdog);
    lemma_started(plan, ProcessRole::Ingestor);
    lemma_started(one, ProcessRole::Mcp);
    assert(one.children.contains(ProcessRole::Mcp) == view.children.contains(ProcessRole::Mcp));
    assert(two.children.contains(ProcessRole::Watchdog) == view.children.contains(
        ProcessRole::Watchdog,
    ));
    let a = only_if(
        !view.children.contains(ProcessRole::Ingestor),
        ProcessCommand::Start(ProcessRole::Ingestor),
    );
    let b = only_if(
        !view.children.contains(ProcessRole::Mcp),
        ProcessCommand::Start(ProcessRole::Mcp),
    );
    let c = only_if(
        !view.children.contains(ProcessRole::Watchdog),
        ProcessCommand::Start(ProcessRole::Watchdog),
    );
    assert(one.commands =~= a);
    assert(two.commands =~= a + b);
    assert(three.commands =~= a + b + c);
}

/// An update stops the ingestor and the search server, in this order and each if it runs, and
/// then starts the watchdog unless it runs.
pub proof fn law_update_stops_what_is_not_needed(view: OrchestratorView)
    ensures
        entered(plan_of(view), OrchestratorState::Update).commands == (if view.children.contains(
            ProcessRole::Ingestor,
        ) {
            seq![ProcessCommand::Stop(ProcessRole::Ingestor)]
        } else {
            Seq::<ProcessCommand>::empty()
        }) + (if view.children.contains(ProcessRole::Mcp) {
            seq![ProcessCommand::Stop(ProcessRole::Mcp)]
        } else {
            Seq::<ProcessCommand>::empty()
        }) + (if view.children.contains(ProcessRole::Watchdog) {
            Seq::<ProcessCommand>::empty()
        } else {
            seq![ProcessCommand::Start(ProcessRole::Watchdog)]
        }),
{
    let plan = plan_of(view);
    let one = stopped(plan, ProcessRole::Ingestor);
    let two = stopped(one, ProcessRole::Mcp);
    let three = started(two, ProcessRole::Watchdog);
    lemma_stopped(plan, ProcessRole::Ingestor);
    lemma_stopped(one, ProcessRole::Mcp);
    assert(one.children.contains(ProcessRole::Mcp) == view.children.contains(ProcessRole::Mcp));
    assert(two.children.contains(ProcessRole::Watchdog) == view.children.contains(
        ProcessRole::Watchdog,
    ));
    let a = only_if(
        view.children.contains(ProcessRole::Ingestor),
        ProcessCommand::Stop(ProcessRole::Ingestor),
    );
    let b = only_if(
        view.children.contains(ProcessRole::Mcp),
        ProcessCommand::Stop(ProcessRole::Mcp),
    );
    let c = only_if(
        !view.children.contains(ProcessRole::Watchdog),
        ProcessCommand::Start(ProcessRole::Watchdog),
    );
    assert(one.commands =~= a);
    assert(two.commands =~= a + b);
    assert(three.commands =~= a + b + c);
}

/// To close stops every process that runs, in order, and then removes the socket.
pub proof fn law_closing_stops_everything(view: OrchestratorView, at: int)
    ensures
        all_stopped(plan_of(view)).children.len() == 0,
        all_stopped(plan_of(view)).commands.len() == view.children.len() + 1,
        all_stopped(plan_of(view)).commands.last() == ProcessCommand::RemoveSocket,
        0 <= at < view.children.len() ==> all_stopped(plan_of(view)).commands[at]
            == ProcessCommand::Stop(view.children[at]),
        entered(plan_of(view), OrchestratorState::Closing) == all_stopped(plan_of(view)),
{
}

/// A process that ended is started again, behind the others, except during an update: then
/// the watchdog alone is. A process that is not supervised is passed over.
pub proof fn law_ended_process_is_replaced(
    plan: Plan,
    state: OrchestratorState,
    role: ProcessRole,
)
    ensures
        !plan.children.contains(role) ==> replaced(plan, state, role) == plan,
        plan.children.contains(role) && (state != OrchestratorState::Update || role
            == ProcessRole::Watchdog) ==> {
            &&& replaced(plan, state, role).commands == plan.commands.push(
                ProcessCommand::Start(role),
            )
            &&& replaced(plan, state, role).children == plan.children.filter(
                |other: ProcessRole| other != role,
            ).push(role)
        },
        plan.children.contains(role) && state == OrchestratorState::Update && role
            != ProcessRole::Watchdog ==> {
            &&& replaced(plan, state, role).commands == plan.commands
            &&& replaced(plan, state, role).children == plan.children.filter(
                |other: ProcessRole| other != role,
            )
        },
{
    lemma_without(plan.children, role);
    lemma_without_is_filter(plan.children, role);
}

/// Processes that ended are replaced one after the other.
pub proof fn law_replacing_goes_one_by_one(
    plan: Plan,
    state: OrchestratorState,
    a: Seq<ProcessRole>,
    b: Seq<ProcessRole>,
    role: ProcessRole,
)
    ensures
        all_replaced(plan, state, a + b) == all_replaced(all_replaced(plan, state, a), state, b),
        all_replaced(plan, state, seq![role]) == replaced(plan, state, role),
        all_replaced(plan, state, Seq::empty()) == plan,
    decreases b.len(),
{
    assert(seq![role].drop_last() =~= Seq::<ProcessRole>::empty());
    assert(all_replaced(plan, state, seq![role].drop_last()) == plan);
    if b.len() == 0 {
        assert(a + b =~= a);
    } else {
        law_replacing_goes_one_by_one(plan, state, a, b.drop_last(), role);
        assert((a + b).drop_last() =~= a + b.drop_last());
        assert((a + b).last() == b.last());
    }
}

/// The start of an update counts in the normal state alone, its end during an update alone,
/// and anything else leads nowhere.
pub proof fn law_signals_count_in_their_turn(state: OrchestratorState)
    ensures
        signalled_state(state, Some(UpdateSignal::UpdateStart)) == (if state
            == OrchestratorState::Normal {
            Some(OrchestratorState::Update)
        } else {
            None::<OrchestratorState>
        }),
        signalled_state(state, Some(UpdateSignal::UpdateEnd)) == (if state
            == OrchestratorState::Update {
            Some(OrchestratorState::Normal)
        } else {
            None::<OrchestratorState>
        }),
        signalled_state(state, None) is None,
{
}

/// A shutdown is asked for by the text `1` alone.
pub proof fn law_shutdown_takes_a_one(value: Seq<char>)
    ensures
        forces_shutdown(Some(value)) <==> value == seq!['1'],
        !forces_shutdown(None),
{
    reveal_strlit("1");
    assert("1"@ =~= seq!['1']);
}

/// What is supervised changes with a plan, but neither the configuration nor the socket.
pub proof fn law_plans_keep_the_paths(
    view: OrchestratorView,
    state: OrchestratorState,
    plan: Plan,
)
    ensures
        with_plan(view, state, plan).state == state,
        with_plan(view, state, plan).children == plan.children,
        with_plan(view, state, plan).config_path == view.config_path,
        with_plan(view, state, plan).ipc_socket_path == view.ipc_socket_path,
        plan_of(view).children == view.children,
        plan_of(view).commands.len() == 0,
{
}

/// A process is called with the name of its role, the flag for the configuration and the path
/// of the configuration.
pub proof fn law_arguments_of_a_process(role: ProcessRole, config_path: Seq<char>)
    ensures
        child_command(role, config_path).len() == 3,
        child_command(role, config_path)[0] == (match role {
            ProcessRole::Ingestor => "ingestor"@,
            ProcessRole::Mcp => "mcp"@,
            ProcessRole::Watchdog => "watchdog"@,
        }),
        child_command(role, config_path)[1] == "--config"@,
        child_command(role, config_path)[2] == config_path,
{
}

} // verus!
