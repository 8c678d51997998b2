//! The command line: which process is to run, and with which configuration.

use vstd::prelude::*;

use crate::orchestrator::{child_command, role_name, ProcessRole};
use crate::text::{copy_text, same_text, texts};

verus! {

/// What the program runs as.
#[derive(Debug, Clone, Copy, PartialEq, Eq, Structural)]
pub enum ServerRole {
    Orchestrator,
    Child(ProcessRole),
}

/// Why a command line is refused.
#[derive(Debug, Clone)]
pub enum CommandError {
    /// The flag for the configuration comes last.
    MissingConfigPath,
    /// There is no such role.
    UnknownRole(String),
}

/// What a `CommandError` holds.
#[verifier::ext_equal]
pub enum CommandErrorView {
    MissingConfigPath,
    UnknownRole(Seq<char>),
}

impl View for CommandError {
    type V = CommandErrorView;

    open spec fn view(&self) -> CommandErrorView {
        match self {
            CommandError::MissingConfigPath => CommandErrorView::MissingConfigPath,
            CommandError::UnknownRole(role) => CommandErrorView::UnknownRole(role@),
        }
    }
}

/// The message for an error.
pub open spec fn command_message(error: CommandErrorView) -> Seq<char> {
    match error {
        CommandErrorView::MissingConfigPath => "--config provided without path"@,
        CommandErrorView::UnknownRole(role) => "unknown role '"@ + role
            + "'. expected orchestrator|ingestor|mcp|watchdog"@,
    }
}

impl CommandError {
    /// The message for the error.
    pub fn message(&self) -> (text: String)
        ensures
            text@ == command_message(self@),
    {
        match self {
            CommandError::MissingConfigPath => copy_text("--config provided without path"),
            CommandError::UnknownRole(role) => {
                let mut text = copy_text("unknown role '");
                text.append(role.as_str());
                text.append("'. expected orchestrator|ingestor|mcp|watchdog");
                text
            },
        }
    }
}

/// The path of the configuration that the arguments name: what follows the first flag for
/// it, and a file in the working directory without the flag.
pub open spec fn config_path_of(args: Seq<Seq<char>>) -> Result<Seq<char>, CommandErrorView>
    decreases args.len(),
{
    if args.len() == 0 {
        Ok("config.json"@)
    } else if args[0] == "--config"@ {
        if args.len() > 1 {
            Ok(args[1])
        } else {
            Err(CommandErrorView::MissingConfigPath)
        }
    } else {
        config_path_of(args.drop_first())
    }
}

/// Whether an outcome is the given one.
pub open spec fn is_path(
    outcome: Result<String, CommandError>,
    expected: Result<Seq<char>, CommandErrorView>,
) -> bool {
    match outcome {
        Ok(path) => expected == Ok::<Seq<char>, CommandErrorView>(path@),
        Err(error) => expected == Err::<Seq<char>, CommandErrorView>(error@),
    }
}

/// The path of the configuration that the arguments name.
pub fn parse_config_path(args: &[String]) -> (path: Result<String, CommandError>)
    ensures
        is_path(path, config_path_of(texts(args@))),
{
    let ghost all = texts(args@);
    assert(all.skip(0) =~= all);
    for idx in 0..args.len()
        invariant
            all == texts(args@),
            config_path_of(all) == config_path_of(all.skip(idx as int)),
    {
        proof {
            assert(all.skip(idx as int)[0] == args@[idx as int]@);
            assert(all.skip(idx as int).drop_first() =~= all.skip(idx + 1));
        }
        if same_text(args[idx].as_str(), "--config") {
            if idx + 1 < args.len() {
                assert(all.skip(idx as int)[1] == args@[idx + 1]@);
                return Ok(copy_text(args[idx + 1].as_str()));
            }
            return Err(CommandError::MissingConfigPath);
        }
    }
    assert(all.skip(args@.len() as int) =~= Seq::empty());
    Ok(copy_text("config.json"))
}

/// The role of a name.
pub open spec fn role_of_name(name: Seq<char>) -> Option<ServerRole> {
    if name == "orchestrator"@ {
        Some(ServerRole::Orchestrator)
    } else if name == "ingestor"@ {
        Some(ServerRole::Child(ProcessRole::Ingestor))
    } else if name == "mcp"@ {
        Some(ServerRole::Child(ProcessRole::Mcp))
    } else if name == "watchdog"@ {
        Some(ServerRole::Child(ProcessRole::Watchdog))
    } else {
        None
    }
}

/// The name of the role that a command line names behind the name of the program.
pub open spec fn named_role(args: Seq<Seq<char>>) -> Seq<char> {
    if args.len() > 1 {
        args[1]
    } else {
        "orchestrator"@
    }
}

/// What a command line asks for: the role and the path of the configuration.
pub open spec fn command_of(args: Seq<Seq<char>>) -> Result<
    (ServerRole, Seq<char>),
    CommandErrorView,
> {
    match config_path_of(args) {
        Err(error) => Err(error),
        Ok(path) => match role_of_name(named_role(args)) {
            Some(role) => Ok((role, path)),
            None => Err(CommandErrorView::UnknownRole(named_role(args))),
        },
    }
}

/// The role of a name.
pub fn parse_role(name: &str) -> (role: Option<ServerRole>)
    ensures
        role == role_of_name(name@),
{
    if same_text(name, "orchestrator") {
        Some(ServerRole::Orchestrator)
    } else if same_text(name, "ingestor") {
        Some(ServerRole::Child(ProcessRole::Ingestor))
    } else if same_text(name, "mcp") {
        Some(ServerRole::Child(ProcessRole::Mcp))
    } else if same_text(name, "watchdog") {
        Some(ServerRole::Child(ProcessRole::Watchdog))
    } else {
        None
    }
}

/// What a command line asks for: the role and the path of the configuration.
pub fn parse_command(args: &[String]) -> (command: Result<(ServerRole, String), CommandError>)
    ensures
        match command {
            Ok((role, path)) => command_of(texts(args@)) == Ok::<
                (ServerRole, Seq<char>),
                CommandErrorView,
            >((role, path@)),
            Err(error) => command_of(texts(args@)) == Err::<
                (ServerRole, Seq<char>),
                CommandErrorView,
            >(error@),
        },
{
    let path = match parse_config_path(args) {
        Ok(path) => path,
        Err(error) => {
            return Err(error);
        },
    };
    let name = if args.len() > 1 {
        copy_text(args[1].as_str())
    } else {
        copy_text("orchestrator")
    };
    match parse_role(name.as_str()) {
        Some(role) => Ok((role, path)),
        None => Err(CommandError::UnknownRole(name)),
    }
}

/// A process that the orchestrator starts runs in its role and with the configuration of the
/// orchestrator, unless the program itself is called like the flag.
pub proof fn law_child_command_is_understood(
    program: Seq<char>,
    role: ProcessRole,
    config_path: Seq<char>,
)
    requires
        program != "--config"@,
    ensures
        command_of(seq![program] + child_command(role, config_path)) == Ok::<
            (ServerRole, Seq<char>),
            CommandErrorView,
        >((ServerRole::Child(role), config_path)),
{
    reveal_strlit("--config");
    reveal_strlit("orchestrator");
    reveal_strlit("ingestor");
    reveal_strlit("mcp");
    reveal_strlit("watchdog");
    let args = seq![program] + child_command(role, config_path);
    let one = args.drop_first();
    let two = one.drop_first();
    assert(args[0] == program && args[1] == role_name(role));
    assert(one[0] == role_name(role));
    assert(two[0] == "--config"@ && two[1] == config_path);
    assert("--config"@.len() == 8 && "orchestrator"@.len() == 12 && "mcp"@.len() == 3);
    assert("ingestor"@.len() == 8 && "watchdog"@.len() == 8);
    assert("ingestor"@[0] == 'i' && "watchdog"@[0] == 'w' && "--config"@[0] == '-');
    assert(config_path_of(one) == config_path_of(two));
    assert(config_path_of(args) == config_path_of(one));
}

/// Arguments without the flag do not matter for the configuration: the path is what follows
/// the first flag, the flag must not be the last argument, and without the flag the
/// configuration is `config.json`.
pub proof fn law_path_follows_the_first_flag(
    before: Seq<Seq<char>>,
    path: Seq<char>,
    rest: Seq<Seq<char>>,
)
    requires
        !before.contains("--config"@),
    ensures
        config_path_of(before + seq!["--config"@, path] + rest) == Ok::<
            Seq<char>,
            CommandErrorView,
        >(path),
        config_path_of(before) == Ok::<Seq<char>, CommandErrorView>("config.json"@),
        config_path_of(before.push("--config"@)) == Err::<Seq<char>, CommandErrorView>(
            CommandErrorView::MissingConfigPath,
        ),
    decreases before.len(),
{
    let all = before + seq!["--config"@, path] + rest;
    let last = before.push("--config"@);
    if before.len() == 0 {
        assert(all[0] == "--config"@ && all[1] == path);
        assert(last[0] == "--config"@);
    } else {
        let less = before.drop_first();
        assert(before.contains(before[0]));
        assert(!less.contains("--config"@)) by {
            if less.contains("--config"@) {
                let i = choose|i: int| 0 <= i < less.len() && less[i] == "--config"@;
                assert(before[i + 1] == "--config"@);
            }
        }
        law_path_follows_the_first_flag(less, path, rest);
        assert(all[0] == before[0]);
        assert(all.drop_first() =~= less + seq!["--config"@, path] + rest);
        assert(last[0] == before[0]);
        assert(last.drop_first() =~= less.push("--config"@));
    }
}

/// There are four names of roles, one for each role, and no others.
pub proof fn law_each_role_has_one_name(name: Seq<char>)
    ensures
        role_of_name(name) == Some(ServerRole::Orchestrator) <==> name == "orchestrator"@,
        role_of_name(name) == Some(ServerRole::Child(ProcessRole::Ingestor)) <==> name
            == "ingestor"@,
        role_of_name(name) == Some(ServerRole::Child(ProcessRole::Mcp)) <==> name == "mcp"@,
        role_of_name(name) == Some(ServerRole::Child(ProcessRole::Watchdog)) <==> name
            == "watchdog"@,
{
    reveal_strlit("orchestrator");
    reveal_strlit("ingestor");
    reveal_strlit("mcp");
    reveal_strlit("watchdog");
    assert("orchestrator"@.len() == 12 && "mcp"@.len() == 3);
    assert("ingestor"@.len() == 8 && "watchdog"@.len() == 8);
    assert("ingestor"@[0] == 'i' && "watchdog"@[0] == 'w');
}

/// The first argument behind the name of the program names the role; without one the program
/// is the orchestrator. A name of no role is refused, and before that a flag without a path.
pub proof fn law_commands_name_role_and_configuration(
    args: Seq<Seq<char>>,
    path: Seq<char>,
    error: CommandErrorView,
    role: ServerRole,
)
    ensures
        config_path_of(args) == Err::<Seq<char>, CommandErrorView>(error) ==> command_of(args)
            == Err::<(ServerRole, Seq<char>), CommandErrorView>(error),
        config_path_of(args) == Ok::<Seq<char>, CommandErrorView>(path) && args.len() <= 1
            ==> command_of(args) == Ok::<(ServerRole, Seq<char>), CommandErrorView>(
            (ServerRole::Orchestrator, path),
        ),
        config_path_of(args) == Ok::<Seq<char>, CommandErrorView>(path) && args.len() > 1
            && role_of_name(args[1]) == Some(role) ==> command_of(args) == Ok::<
            (ServerRole, Seq<char>),
            CommandErrorView,
        >((role, path)),
        config_path_of(args) == Ok::<Seq<char>, CommandErrorView>(path) && args.len() > 1
            && role_of_name(args[1]) is None ==> command_of(args) == Err::<
            (ServerRole, Seq<char>),
            CommandErrorView,
        >(CommandErrorView::UnknownRole(args[1])),
{
}

/// The message for a name of no role holds the name.
pub proof fn law_refusals_name_the_role(role: Seq<char>)
    ensures
        command_message(CommandErrorView::UnknownRole(role)) == "unknown role '"@ + role
            + "'. expected orchestrator|ingestor|mcp|watchdog"@,
        command_message(CommandErrorView::MissingConfigPath) == "--config provided without path"@,
{
}

} // verus!
