use opencodesearch::cli::{parse_command, parse_config_path, parse_role, CommandError, ServerRole};
use opencodesearch::orchestrator::{Orchestrator, ProcessRole};

fn args(list: &[&str]) -> Vec<String> {
    list.iter().map(|text| text.to_string()).collect()
}

#[test]
fn the_flag_names_the_configuration() {
    assert_eq!(parse_config_path(&args(&[])).unwrap(), "config.json");
    assert_eq!(parse_config_path(&args(&["x", "mcp"])).unwrap(), "config.json");
    assert_eq!(parse_config_path(&args(&["x", "mcp", "--config", "a.json"])).unwrap(), "a.json");
    // The first flag counts.
    let twice = args(&["x", "--config", "a", "--config", "b"]);
    assert_eq!(parse_config_path(&twice).unwrap(), "a");
    let error = parse_config_path(&args(&["x", "mcp", "--config"])).unwrap_err();
    assert!(matches!(error, CommandError::MissingConfigPath));
    assert_eq!(error.message(), "--config provided without path");
}

#[test]
fn roles_have_names() {
    assert_eq!(parse_role("orchestrator"), Some(ServerRole::Orchestrator));
    for role in [ProcessRole::Ingestor, ProcessRole::Mcp, ProcessRole::Watchdog] {
        assert_eq!(parse_role(role.as_arg()), Some(ServerRole::Child(role)));
    }
    assert_eq!(parse_role("MCP"), None);
}

#[test]
fn commands_name_role_and_configuration() {
    let (role, path) = parse_command(&args(&["x"])).unwrap();
    assert_eq!(role, ServerRole::Orchestrator);
    assert_eq!(path, "config.json");
    let error = parse_command(&args(&["x", "indexer"])).unwrap_err();
    assert_eq!(
        error.message(),
        "unknown role 'indexer'. expected orchestrator|ingestor|mcp|watchdog"
    );
    // A missing path is reported before an unknown role.
    let error = parse_command(&args(&["x", "indexer", "--config"])).unwrap_err();
    assert!(matches!(error, CommandError::MissingConfigPath));
}

#[test]
fn children_get_the_configuration() {
    let orchestrator = Orchestrator::new("my.json".to_string(), "/tmp", 7);
    for role in [ProcessRole::Ingestor, ProcessRole::Mcp, ProcessRole::Watchdog] {
        let mut command = args(&["opencodesearch"]);
        command.extend(orchestrator.child_args(role));
        let (parsed, path) = parse_command(&command).unwrap();
        assert_eq!(parsed, ServerRole::Child(role));
        assert_eq!(path, "my.json");
    }
}
