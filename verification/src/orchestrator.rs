//! Supervision: which processes run in which state, and what changes the state.

use vstd::prelude::*;

use crate::number::{decimal, decimal_text};
use crate::orchestrator_laws::{law_ended_processes_come_back, law_entering_a_state_settles};
use crate::paths::{join_path, joined_path};
use crate::text::{copy_text, same_text};
use crate::types::{signal_of, UpdateSignal};

verus! {

/// The state of the server as a whole.
#[derive(Debug, Clone, Copy, PartialEq, Eq, Structural)]
pub enum OrchestratorState {
    /// Nothing runs yet.
    Spinup,
    /// Everything runs.
    Normal,
    /// The code base is brought up to date; only the watchdog runs.
    Update,
    /// Everything is stopped for good.
    Closing,
}

/// A process that is supervised.
#[derive(Debug, Clone, Copy, PartialEq, Eq, Structural)]
pub enum ProcessRole {
    Ingestor,
    Mcp,
    Watchdog,
}

/// The name of a role on the command line.
pub open spec fn role_name(role: ProcessRole) -> Seq<char> {
    match role {
        ProcessRole::Ingestor => "ingestor"@,
        ProcessRole::Mcp => "mcp"@,
        ProcessRole::Watchdog => "watchdog"@,
    }
}

impl ProcessRole {
    /// The name of the role on the command line.
    pub fn as_arg(self) -> (arg: &'static str)
        ensures
            arg@ == role_name(self),
    {
        match self {
            ProcessRole::Ingestor => "ingestor",
            ProcessRole::Mcp => "mcp",
            ProcessRole::Watchdog => "watchdog",
        }
    }
}

/// What is to be done to the processes.
#[derive(Debug, Clone, Copy, PartialEq, Eq, Structural)]
pub enum ProcessCommand {
    Start(ProcessRole),
    /// Kill the process and wait for its end.
    Stop(ProcessRole),
    /// Remove the socket on which update signals come.
    RemoveSocket,
}

/// The processes that run, in the order in which they were started, and what was to be done
/// so far.
#[verifier::ext_equal]
pub struct Plan {
    pub children: Seq<ProcessRole>,
    pub commands: Seq<ProcessCommand>,
}

/// The roles without one of them.
pub open spec fn without(children: Seq<ProcessRole>, role: ProcessRole) -> Seq<ProcessRole>
    decreases children.len(),
{
    if children.len() == 0 {
        Seq::empty()
    } else {
        let before = without(children.drop_last(), role);
        if children.last() == role {
            before
        } else {
            before.push(children.last())
        }
    }
}

/// A process is started unless it runs.
pub open spec fn started(plan: Plan, role: ProcessRole) -> Plan {
    if plan.children.contains(role) {
        plan
    } else {
        Plan {
            children: plan.children.push(role),
            commands: plan.commands.push(ProcessCommand::Start(role)),
        }
    }
}

/// A process is stopped if it runs.
pub open spec fn stopped(plan: Plan, role: ProcessRole) -> Plan {
    if plan.children.contains(role) {
        Plan {
            children: without(plan.children, role),
            commands: plan.commands.push(ProcessCommand::Stop(role)),
        }
    } else {
        plan
    }
}

/// The commands that stop each of a list of processes.
pub open spec fn stop_commands(children: Seq<ProcessRole>) -> Seq<ProcessCommand> {
    Seq::new(children.len(), |i: int| ProcessCommand::Stop(children[i]))
}

/// All processes are stopped, and the socket goes.
pub open spec fn all_stopped(plan: Plan) -> Plan {
    Plan {
        children: Seq::empty(),
        commands: (plan.commands + stop_commands(plan.children)).push(ProcessCommand::RemoveSocket),
    }
}

/// What entering a state does.
pub open spec fn entered(plan: Plan, next: OrchestratorState) -> Plan {
    match next {
        OrchestratorState::Spinup => plan,
        OrchestratorState::Normal => started(
            started(started(plan, ProcessRole::Ingestor), ProcessRole::Mcp),
            ProcessRole::Watchdog,
        ),
        OrchestratorState::Update => started(
            stopped(stopped(plan, ProcessRole::Ingestor), ProcessRole::Mcp),
            ProcessRole::Watchdog,
        ),
        OrchestratorState::Closing => all_stopped(plan),
    }
}

/// Whether a process that ended is started again. During an update only the watchdog is.
pub open spec fn comes_back(state: OrchestratorState, role: ProcessRole) -> bool {
    state != OrchestratorState::Update || role == ProcessRole::Watchdog
}

/// A process that ended is taken off the list, and started again where it is to come back.
pub open spec fn replaced(plan: Plan, state: OrchestratorState, role: ProcessRole) -> Plan {
    if !plan.children.contains(role) {
        plan
    } else {
        let left = Plan { children: without(plan.children, role), ..plan };
        if comes_back(state, role) {
            started(left, role)
        } else {
            left
        }
    }
}

/// Each process that ended is replaced.
pub open spec fn all_replaced(
    plan: Plan,
    state: OrchestratorState,
    ended: Seq<ProcessRole>,
) -> Plan
    decreases ended.len(),
{
    if ended.len() == 0 {
        plan
    } else {
        replaced(all_replaced(plan, state, ended.drop_last()), state, ended.last())
    }
}

/// The state to which a signal leads, if it leads to one.
pub open spec fn signalled_state(
    state: OrchestratorState,
    signal: Option<UpdateSignal>,
) -> Option<OrchestratorState> {
    match signal {
        Some(UpdateSignal::UpdateStart) => if state == OrchestratorState::Normal {
            Some(OrchestratorState::Update)
        } else {
            None
        },
        Some(UpdateSignal::UpdateEnd) => if state == OrchestratorState::Update {
            Some(OrchestratorState::Normal)
        } else {
            None
        },
        None => None,
    }
}

/// The supervisor of the other processes.
#[derive(Debug, Clone)]
pub struct Orchestrator {
    pub state: OrchestratorState,
    pub config_path: String,
    pub ipc_socket_path: String,
    /// The processes that run, in the order in which they were started.
    pub children: Vec<ProcessRole>,
}

/// What an `Orchestrator` supervises.
#[verifier::ext_equal]
pub struct OrchestratorView {
    pub state: OrchestratorState,
    pub config_path: Seq<char>,
    pub ipc_socket_path: Seq<char>,
    pub children: Seq<ProcessRole>,
}

impl View for Orchestrator {
    type V = OrchestratorView;

    open spec fn view(&self) -> OrchestratorView {
        OrchestratorView {
            state: self.state,
            config_path: self.config_path@,
            ipc_socket_path: self.ipc_socket_path@,
            children: self.children@,
        }
    }
}

/// The plan before anything is done.
pub open spec fn plan_of(view: OrchestratorView) -> Plan {
    Plan { children: view.children, commands: Seq::empty() }
}

/// The supervisor after a plan.
pub open spec fn with_plan(
    view: OrchestratorView,
    state: OrchestratorState,
    plan: Plan,
) -> OrchestratorView {
    OrchestratorView { state, children: plan.children, ..view }
}

/// Whether exactly the processes of its state run, each of them once.
pub open spec fn settled(view: OrchestratorView) -> bool {
    &&& view.children.no_duplicates()
    &&& forall|role: ProcessRole| #[trigger]
        view.children.contains(role) <==> runs_in(view.state, role)
}

/// Whether a process runs in a state.
pub open spec fn runs_in(state: OrchestratorState, role: ProcessRole) -> bool {
    match state {
        OrchestratorState::Spinup => false,
        OrchestratorState::Normal => true,
        OrchestratorState::Update => role == ProcessRole::Watchdog,
        OrchestratorState::Closing => false,
    }
}

/// Whether the shutdown variable of the environment asks for a shutdown.
pub open spec fn forces_shutdown(variable: Option<Seq<char>>) -> bool {
    variable == Some("1"@)
}

/// What the supervisor does next.
#[derive(Debug, Clone)]
pub enum Round {
    /// Stop: everything is closed.
    Finished,
    /// Do this, and go on with the next round.
    Close(Vec<ProcessCommand>),
    /// Look for signals and for processes that ended.
    Supervise,
}

fn runs(children: &Vec<ProcessRole>, role: ProcessRole) -> (r: bool)
    ensures
        r == children@.contains(role),
{
    for i in 0..children.len()
        invariant
            forall|j: int| 0 <= j < i ==> #[trigger] children@[j] != role,
    {
        if children[i] == role {
            return true;
        }
    }
    false
}

fn leave_out(children: &Vec<ProcessRole>, role: ProcessRole) -> (left: Vec<ProcessRole>)
    ensures
        left@ == without(children@, role),
{
    let mut left: Vec<ProcessRole> = Vec::new();
    assert(children@.take(0) =~= Seq::empty());
    for i in 0..children.len()
        invariant
            left@ == without(children@.take(i as int), role),
    {
        proof {
            assert(children@.take(i + 1).drop_last() =~= children@.take(i as int));
            assert(children@.take(i + 1).last() == children@[i as int]);
        }
        if children[i] != role {
            left.push(children[i]);
        }
    }
    assert(children@.take(children@.len() as int) =~= children@);
    left
}

impl Orchestrator {
    /// A supervisor of which nothing runs yet. Its socket lies in the directory for
    /// temporary files and bears the number of its process.
    pub fn new(config_path: String, temp_dir: &str, process_id: u32) -> (orchestrator: Orchestrator)
        ensures
            orchestrator@ == (OrchestratorView {
                state: OrchestratorState::Spinup,
                config_path: config_path@,
                ipc_socket_path: join_path(
                    temp_dir@,
                    "opencodesearch-"@ + decimal(process_id as nat) + ".sock"@,
                ),
                children: Seq::empty(),
            }),
            settled(orchestrator@),
    {
        let mut name = copy_text("opencodesearch-");
        let number = decimal_text(process_id as usize);
        name.append(number.as_str());
        name.append(".sock");
        Orchestrator {
            state: OrchestratorState::Spinup,
            config_path,
            ipc_socket_path: joined_path(temp_dir, name.as_str()),
            children: Vec::new(),
        }
    }

    /// The arguments with which a process is started.
    pub fn child_args(&self, role: ProcessRole) -> (args: Vec<String>)
        ensures
            crate::text::texts(args@) == child_command(role, self.config_path@),
    {
        let mut args: Vec<String> = Vec::new();
        args.push(copy_text(role.as_arg()));
        args.push(copy_text("--config"));
        args.push(copy_text(self.config_path.as_str()));
        assert(crate::text::texts(args@) =~= child_command(role, self.config_path@));
        args
    }

    /// Starts a process unless it runs.
    fn ensure_started(&mut self, role: ProcessRole, commands: &mut Vec<ProcessCommand>)
        ensures
            final(self)@ == with_plan(
                old(self)@,
                old(self)@.state,
                started(Plan { children: old(self)@.children, commands: old(commands)@ }, role),
            ),
            final(commands)@ == started(
                Plan { children: old(self)@.children, commands: old(commands)@ },
                role,
            ).commands,
    {
        if !runs(&self.children, role) {
            self.children.push(role);
            commands.push(ProcessCommand::Start(role));
        }
    }

    /// Stops a process if it runs.
    fn stop_child(&mut self, role: ProcessRole, commands: &mut Vec<ProcessCommand>)
        ensures
            final(self)@ == with_plan(
                old(self)@,
                old(self)@.state,
                stopped(Plan { children: old(self)@.children, commands: old(commands)@ }, role),
            ),
            final(commands)@ == stopped(
                Plan { children: old(self)@.children, commands: old(commands)@ },
                role,
            ).commands,
    {
        if runs(&self.children, role) {
            self.children = leave_out(&self.children, role);
            commands.push(ProcessCommand::Stop(role));
        }
    }

    /// Stops all processes and removes the socket.
    pub fn shutdown_all(&mut self) -> (commands: Vec<ProcessCommand>)
        ensures
            final(self)@ == with_plan(old(self)@, old(self)@.state, all_stopped(plan_of(old(self)@))),
            commands@ == all_stopped(plan_of(old(self)@)).commands,
    {
        let mut commands: Vec<ProcessCommand> = Vec::new();
        for i in 0..self.children.len()
            invariant
                self@ == old(self)@,
                commands@ == stop_commands(self.children@).take(i as int),
        {
            commands.push(ProcessCommand::Stop(self.children[i]));
            assert(stop_commands(self.children@).take(i + 1) =~= stop_commands(
                self.children@,
            ).take(i as int).push(ProcessCommand::Stop(self.children@[i as int])));
        }
        commands.push(ProcessCommand::RemoveSocket);
        self.children = Vec::new();
        assert(commands@ =~= all_stopped(plan_of(old(self)@)).commands);
        assert(self.children@ =~= Seq::<ProcessRole>::empty());
        commands
    }

    /// Enters a state.
    pub fn transition_to(&mut self, next: OrchestratorState) -> (commands: Vec<ProcessCommand>)
        ensures
            final(self)@ == with_plan(old(self)@, next, entered(plan_of(old(self)@), next)),
            commands@ == entered(plan_of(old(self)@), next).commands,
            settled(old(self)@) && next != OrchestratorState::Spinup ==> settled(final(self)@),
    {
        proof {
            if settled(self@) && next != OrchestratorState::Spinup {
                law_entering_a_state_settles(self@, next);
            }
        }
        self.state = next;
        let mut commands: Vec<ProcessCommand> = Vec::new();
        match next {
            OrchestratorState::Spinup => {},
            OrchestratorState::Normal => {
                self.ensure_started(ProcessRole::Ingestor, &mut commands);
                self.ensure_started(ProcessRole::Mcp, &mut commands);
                self.ensure_started(ProcessRole::Watchdog, &mut commands);
            },
            OrchestratorState::Update => {
                self.stop_child(ProcessRole::Ingestor, &mut commands);
                self.stop_child(ProcessRole::Mcp, &mut commands);
                self.ensure_started(ProcessRole::Watchdog, &mut commands);
            },
            OrchestratorState::Closing => {
                commands = self.shutdown_all();
            },
        }
        commands
    }

    /// Replaces the processes that ended. Nothing is done when everything closes.
    pub fn monitor_and_restart(&mut self, ended: &Vec<ProcessRole>) -> (commands: Vec<
        ProcessCommand,
    >)
        ensures
            ({
                let plan = if old(self)@.state == OrchestratorState::Closing {
                    plan_of(old(self)@)
                } else {
                    all_replaced(plan_of(old(self)@), old(self)@.state, ended@)
                };
                &&& final(self)@ == with_plan(old(self)@, old(self)@.state, plan)
                &&& commands@ == plan.commands
            }),
            settled(old(self)@) ==> settled(final(self)@),
    {
        proof {
            if settled(self@) {
                law_ended_processes_come_back(self@, ended@);
            }
        }
        let mut commands: Vec<ProcessCommand> = Vec::new();
        if self.state == OrchestratorState::Closing {
            return commands;
        }
        let ghost start = plan_of(old(self)@);
        assert(ended@.take(0) =~= Seq::empty());
        for i in 0..ended.len()
            invariant
                start == plan_of(old(self)@),
                self@ == with_plan(
                    old(self)@,
                    old(self)@.state,
                    all_replaced(start, old(self)@.state, ended@.take(i as int)),
                ),
                commands@ == all_replaced(
                    start,
                    old(self)@.state,
                    ended@.take(i as int),
                ).commands,
        {
            proof {
                assert(ended@.take(i + 1).drop_last() =~= ended@.take(i as int));
                assert(ended@.take(i + 1).last() == ended@[i as int]);
            }
            let role = ended[i];
            if runs(&self.children, role) {
                self.children = leave_out(&self.children, role);
                if self.state != OrchestratorState::Update || role == ProcessRole::Watchdog {
                    self.ensure_started(role, &mut commands);
                }
            }
        }
        assert(ended@.take(ended@.len() as int) =~= ended@);
        commands
    }

    /// Reacts to a datagram on the socket, if there is one. The start of an update counts
    /// only in the normal state, its end only during an update.
    pub fn handle_ipc_signals(&mut self, datagram: Option<&[u8]>) -> (commands: Vec<ProcessCommand>)
        ensures
            ({
                let signal = match datagram {
                    Some(bytes) => signal_of(bytes@),
                    None => None,
                };
                match signalled_state(old(self)@.state, signal) {
                    Some(next) => {
                        let plan = entered(plan_of(old(self)@), next);
                        final(self)@ == with_plan(old(self)@, next, plan) && commands@
                            == plan.commands
                    },
                    None => final(self)@ == old(self)@ && commands@ == Seq::<
                        ProcessCommand,
                    >::empty(),
                }
            }),
            settled(old(self)@) ==> settled(final(self)@),
    {
        let signal = match datagram {
            Some(bytes) => UpdateSignal::parse(bytes),
            None => None,
        };
        match signal {
            Some(UpdateSignal::UpdateStart) => if self.state == OrchestratorState::Normal {
                return self.transition_to(OrchestratorState::Update);
            },
            Some(UpdateSignal::UpdateEnd) => if self.state == OrchestratorState::Update {
                return self.transition_to(OrchestratorState::Normal);
            },
            None => {},
        }
        Vec::new()
    }

    /// Whether the shutdown variable of the environment asks for a shutdown.
    pub fn check_shutdown_signal(variable: Option<&str>) -> (r: bool)
        ensures
            r == forces_shutdown(
                match variable {
                    Some(value) => Some(value@),
                    None => None,
                },
            ),
    {
        match variable {
            Some(value) => same_text(value, "1"),
            None => false,
        }
    }

    /// What is done next, given whether a shutdown was asked for.
    pub fn begin_round(&mut self, close: bool) -> (round: Round)
        ensures
            ({
                let plan = entered(plan_of(old(self)@), OrchestratorState::Closing);
                match round {
                    Round::Finished => old(self)@.state == OrchestratorState::Closing
                        && final(self)@ == old(self)@,
                    Round::Close(commands) => {
                        &&& old(self)@.state != OrchestratorState::Closing && close
                        &&& final(self)@ == with_plan(
                            old(self)@,
                            OrchestratorState::Closing,
                            plan,
                        )
                        &&& commands@ == plan.commands
                    },
                    Round::Supervise => old(self)@.state != OrchestratorState::Closing && !close
                        && final(self)@ == old(self)@,
                }
            }),
            settled(old(self)@) ==> settled(final(self)@),
    {
        if self.state == OrchestratorState::Closing {
            Round::Finished
        } else if close {
            Round::Close(self.transition_to(OrchestratorState::Closing))
        } else {
            Round::Supervise
        }
    }
}

/// The arguments with which a process is started.
pub open spec fn child_command(role: ProcessRole, config_path: Seq<char>) -> Seq<Seq<char>> {
    seq![role_name(role), "--config"@, config_path]
}

} // verus!
