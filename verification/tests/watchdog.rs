use opencodesearch::config::{
    AppConfig, CodebaseConfig, OllamaConfig, QdrantConfig, QuickwitConfig,
};
use opencodesearch::indexing::IndexingRuntime;
use opencodesearch::types::UpdateSignal;
use opencodesearch::watchdog::{
    changed_files, commit_range_text, count_new_commits, deleted_paths, run_git, updated_paths,
    GitError, WatchAction, WatchEvent, WatchdogProcess,
};

fn watchdog(threshold: usize) -> WatchdogProcess {
    let config = AppConfig {
        codebase: CodebaseConfig {
            directory_path: "/repo".to_string(),
            git_branch: "main".to_string(),
            commit_threshold: threshold,
            mcp_server_name: "Test".to_string(),
            mcp_server_url: "http://localhost:9443".to_string(),
            background_indexing_threads: 1,
        },
        ollama: OllamaConfig {
            server_url: "http://localhost:11434".to_string(),
            embedding_model: "m".to_string(),
            context_size: 2000,
        },
        qdrant: QdrantConfig {
            server_url: "http://localhost:6334".to_string(),
            collection_name: "c".to_string(),
            api_key: None,
        },
        quickwit: QuickwitConfig {
            quickwit_url: "http://localhost:7280".to_string(),
            quickwit_index_id: "c".to_string(),
        },
    };
    let runtime = IndexingRuntime::from_config(config).unwrap();
    WatchdogProcess::new(runtime, "/tmp/s.sock".to_string())
}

fn git(action: WatchAction) -> String {
    match action {
        WatchAction::Git(args) => args.join(" "),
        _ => panic!("git must run"),
    }
}

fn output(text: &str) -> WatchEvent {
    WatchEvent::Output(text.to_string())
}

/// A watchdog that has seen the commit `old` and is about to look again.
fn after_first_look(threshold: usize) -> WatchdogProcess {
    let mut dog = watchdog(threshold);
    assert_eq!(git(dog.next_action()), "rev-parse HEAD");
    dog.on_event(output("old\n"));
    assert!(matches!(dog.next_action(), WatchAction::Sleep));
    assert_eq!(dog.last_synced_commit, Some("old".to_string()));
    dog.on_event(WatchEvent::Done);
    dog
}

#[test]
fn git_output_is_read() {
    assert_eq!(run_git(true, b"abc\n".to_vec()), Ok("abc\n".to_string()));
    assert_eq!(run_git(false, b"abc\n".to_vec()), Err(GitError::Status));
    assert_eq!(run_git(true, vec![0xff]), Err(GitError::NotUtf8));
    assert_eq!(count_new_commits(" 12\n"), 12);
    assert_eq!(count_new_commits("none"), 0);
    assert_eq!(commit_range_text("a", "HEAD"), "a..HEAD");
}

#[test]
fn changed_files_are_listed() {
    let changed = changed_files("/repo", "M\tsrc/a.rs\nD\told.py\r\nR100\tx\ty\n\nA\tb c\nM\n");
    let pairs: Vec<(&str, &str)> =
        changed.iter().map(|file| (file.path.as_str(), file.status.as_str())).collect();
    assert_eq!(
        pairs,
        vec![("/repo/src/a.rs", "M"), ("/repo/old.py", "D"), ("/repo/x", "R100"), ("/repo/b", "A")]
    );
    assert_eq!(deleted_paths(&changed), vec!["/repo/old.py"]);
    assert_eq!(updated_paths(&changed), vec!["/repo/src/a.rs", "/repo/b"]);
}

#[test]
fn too_few_commits_cause_no_update() {
    let mut dog = after_first_look(50);
    dog.on_event(output("new\n"));
    assert_eq!(git(dog.next_action()), "rev-list --count old..HEAD");
    dog.on_event(output("49\n"));
    assert!(matches!(dog.next_action(), WatchAction::Sleep));
    assert_eq!(dog.last_synced_commit, Some("old".to_string()));
}

#[test]
fn an_update_runs_to_its_end() {
    let mut dog = after_first_look(50);
    dog.on_event(output("new\n"));
    dog.on_event(output("50\n"));
    assert!(matches!(dog.next_action(), WatchAction::Send(UpdateSignal::UpdateStart)));
    dog.on_event(WatchEvent::Done);
    assert_eq!(git(dog.next_action()), "pull origin main");
    dog.on_event(output("Updating\n"));
    assert_eq!(git(dog.next_action()), "rev-parse HEAD");
    dog.on_event(output("pulled\n"));
    assert_eq!(git(dog.next_action()), "diff --name-status old..pulled");
    dog.on_event(output("D\tgone.py\nA\tnew.py\nM\tmoved.py\n"));
    match dog.next_action() {
        WatchAction::Delete(paths) => assert_eq!(paths, vec!["/repo/gone.py"]),
        _ => panic!("must delete"),
    }
    dog.on_event(WatchEvent::Done);
    match dog.next_action() {
        WatchAction::Check(paths) => assert_eq!(paths, vec!["/repo/new.py", "/repo/moved.py"]),
        _ => panic!("must check"),
    }
    dog.on_event(WatchEvent::Existing(vec![true, false]));
    match dog.next_action() {
        WatchAction::Index(paths) => assert_eq!(paths, vec!["/repo/new.py"]),
        _ => panic!("must index"),
    }
    dog.on_event(WatchEvent::Done);
    assert_eq!(git(dog.next_action()), "rev-parse HEAD");
    dog.on_event(output("synced\n"));
    assert!(matches!(dog.next_action(), WatchAction::Send(UpdateSignal::UpdateEnd)));
    assert_eq!(dog.last_synced_commit, Some("synced".to_string()));
    dog.on_event(WatchEvent::Done);
    assert!(matches!(dog.next_action(), WatchAction::Sleep));
}

#[test]
fn an_update_without_files_goes_straight_to_its_end() {
    let mut dog = after_first_look(0);
    for text in ["old\n", "0\n"] {
        dog.on_event(output(text));
    }
    dog.on_event(WatchEvent::Done);
    for text in ["", "head", "R100\ta\tb\n"] {
        dog.on_event(output(text));
    }
    assert_eq!(git(dog.next_action()), "rev-parse HEAD");
    dog.on_event(output("head"));
    assert!(matches!(dog.next_action(), WatchAction::Send(UpdateSignal::UpdateEnd)));
    // Where no new file exists, none is indexed.
    let mut dog = after_first_look(0);
    for text in ["old\n", "0\n"] {
        dog.on_event(output(text));
    }
    dog.on_event(WatchEvent::Done);
    for text in ["", "head", "A\ta\n"] {
        dog.on_event(output(text));
    }
    dog.on_event(WatchEvent::Existing(vec![false]));
    assert_eq!(git(dog.next_action()), "rev-parse HEAD");
}

#[test]
fn a_failure_stops_the_watchdog() {
    let mut dog = after_first_look(1);
    dog.on_event(WatchEvent::Failed);
    assert!(matches!(dog.next_action(), WatchAction::Stop));
    dog.on_event(WatchEvent::Done);
    assert!(matches!(dog.next_action(), WatchAction::Stop));
}
