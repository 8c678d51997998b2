use opencodesearch::orchestrator::{
    Orchestrator, OrchestratorState, ProcessCommand, ProcessRole, Round,
};
use opencodesearch::types::UpdateSignal;

fn running() -> Orchestrator {
    let mut orchestrator = Orchestrator::new("config.json".to_string(), "/tmp/", 42);
    orchestrator.transition_to(OrchestratorState::Normal);
    orchestrator
}

#[test]
fn it_starts_with_nothing() {
    let orchestrator = Orchestrator::new("config.json".to_string(), "/tmp", 42);
    assert_eq!(orchestrator.state, OrchestratorState::Spinup);
    assert_eq!(orchestrator.ipc_socket_path, "/tmp/opencodesearch-42.sock");
    assert_eq!(orchestrator.config_path, "config.json");
    assert!(orchestrator.children.is_empty());
    assert_eq!(orchestrator.child_args(ProcessRole::Mcp), vec!["mcp", "--config", "config.json"]);
}

#[test]
fn the_normal_state_starts_everything_once() {
    let mut orchestrator = Orchestrator::new("config.json".to_string(), "/tmp", 42);
    let commands = orchestrator.transition_to(OrchestratorState::Normal);
    assert_eq!(
        commands,
        vec![
            ProcessCommand::Start(ProcessRole::Ingestor),
            ProcessCommand::Start(ProcessRole::Mcp),
            ProcessCommand::Start(ProcessRole::Watchdog),
        ]
    );
    assert!(orchestrator.transition_to(OrchestratorState::Normal).is_empty());
}

#[test]
fn an_update_stops_and_restarts_two_processes() {
    let mut orchestrator = running();
    let commands = orchestrator.handle_ipc_signals(Some(UpdateSignal::UpdateStart.as_bytes()));
    assert_eq!(
        commands,
        vec![
            ProcessCommand::Stop(ProcessRole::Ingestor),
            ProcessCommand::Stop(ProcessRole::Mcp),
        ]
    );
    assert_eq!(orchestrator.state, OrchestratorState::Update);
    assert_eq!(orchestrator.children, vec![ProcessRole::Watchdog]);
    // A second start changes nothing.
    assert!(orchestrator
        .handle_ipc_signals(Some(UpdateSignal::UpdateStart.as_bytes()))
        .is_empty());
    assert_eq!(orchestrator.state, OrchestratorState::Update);
    let commands = orchestrator.handle_ipc_signals(Some(b"UPDATE_END\n"));
    assert_eq!(
        commands,
        vec![
            ProcessCommand::Start(ProcessRole::Ingestor),
            ProcessCommand::Start(ProcessRole::Mcp),
        ]
    );
    assert_eq!(orchestrator.state, OrchestratorState::Normal);
}

#[test]
fn signals_out_of_turn_are_ignored() {
    let mut orchestrator = running();
    assert!(orchestrator.handle_ipc_signals(Some(UpdateSignal::UpdateEnd.as_bytes())).is_empty());
    assert!(orchestrator.handle_ipc_signals(Some(b"hello")).is_empty());
    assert!(orchestrator.handle_ipc_signals(None).is_empty());
    assert_eq!(orchestrator.state, OrchestratorState::Normal);
}

#[test]
fn ended_processes_are_replaced() {
    let mut orchestrator = running();
    let ended = vec![ProcessRole::Mcp, ProcessRole::Watchdog];
    let commands = orchestrator.monitor_and_restart(&ended);
    assert_eq!(
        commands,
        vec![
            ProcessCommand::Start(ProcessRole::Mcp),
            ProcessCommand::Start(ProcessRole::Watchdog),
        ]
    );
    assert_eq!(orchestrator.children.len(), 3);
    orchestrator.transition_to(OrchestratorState::Update);
    // During an update only the watchdog comes back.
    let commands = orchestrator.monitor_and_restart(&vec![ProcessRole::Watchdog]);
    assert_eq!(commands, vec![ProcessCommand::Start(ProcessRole::Watchdog)]);
    assert!(orchestrator.monitor_and_restart(&vec![ProcessRole::Mcp]).is_empty());
    orchestrator.children.push(ProcessRole::Mcp);
    assert!(orchestrator.monitor_and_restart(&vec![ProcessRole::Mcp]).is_empty());
    assert_eq!(orchestrator.children, vec![ProcessRole::Watchdog]);
}

#[test]
fn closing_is_final() {
    let mut orchestrator = running();
    assert!(matches!(orchestrator.begin_round(false), Round::Supervise));
    match orchestrator.begin_round(true) {
        Round::Close(commands) => assert_eq!(
            commands,
            vec![
                ProcessCommand::Stop(ProcessRole::Ingestor),
                ProcessCommand::Stop(ProcessRole::Mcp),
                ProcessCommand::Stop(ProcessRole::Watchdog),
                ProcessCommand::RemoveSocket,
            ]
        ),
        _ => panic!("must close"),
    }
    assert_eq!(orchestrator.state, OrchestratorState::Closing);
    assert!(matches!(orchestrator.begin_round(false), Round::Finished));
    assert!(orchestrator.monitor_and_restart(&vec![ProcessRole::Mcp]).is_empty());
    assert!(orchestrator.handle_ipc_signals(Some(b"UPDATE_START")).is_empty());
    assert_eq!(orchestrator.shutdown_all(), vec![ProcessCommand::RemoveSocket]);
}

#[test]
fn the_shutdown_variable_must_be_one() {
    assert!(Orchestrator::check_shutdown_signal(Some("1")));
    assert!(!Orchestrator::check_shutdown_signal(Some("true")));
    assert!(!Orchestrator::check_shutdown_signal(Some("")));
    assert!(!Orchestrator::check_shutdown_signal(None));
}
