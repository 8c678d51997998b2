use opencodesearch::config::{
    AppConfig, CodebaseConfig, OllamaConfig, QdrantConfig, QuickwitConfig,
};
use opencodesearch::indexing::{
    collect_candidate_files, embedding_failure_message, first_vector, keep_vector,
    no_vector_message, IndexEvent, IndexJob, IndexStage, IndexingRuntime, SourceFile, WalkEntry,
};
use opencodesearch::quickwit::shadow_line;
use opencodesearch::types::CodeChunk;

fn config(ollama_url: &str) -> AppConfig {
    AppConfig {
        codebase: CodebaseConfig {
            directory_path: ".".to_string(),
            git_branch: "main".to_string(),
            commit_threshold: 50,
            mcp_server_name: "Test".to_string(),
            mcp_server_url: "http://localhost:9443".to_string(),
            background_indexing_threads: 1,
        },
        ollama: OllamaConfig {
            server_url: ollama_url.to_string(),
            embedding_model: "m".to_string(),
            context_size: 2000,
        },
        qdrant: QdrantConfig {
            server_url: "http://localhost:6334".to_string(),
            collection_name: "unused".to_string(),
            api_key: Some("key".to_string()),
        },
        quickwit: QuickwitConfig {
            quickwit_url: "http://localhost:7280/".to_string(),
            quickwit_index_id: "chunks".to_string(),
        },
    }
}

fn runtime() -> IndexingRuntime {
    IndexingRuntime::from_config(config("http://localhost:11434")).unwrap()
}

fn chunk(path: &str, index: usize) -> CodeChunk {
    CodeChunk {
        id: format!("{}:{}:1:2", path, index),
        path: path.to_string(),
        snippet: "x".to_string(),
        start_line: 1,
        end_line: 2,
    }
}

fn new_job() -> IndexJob {
    IndexJob { stage: IndexStage::Chunk, chunks: Vec::new() }
}

fn source(name: &str, content: &str) -> SourceFile {
    SourceFile {
        name: name.to_string(),
        path: format!("/repo/{}", name),
        content: content.to_string(),
    }
}

fn entry(name: &str, is_dir: bool) -> Option<WalkEntry> {
    Some(WalkEntry { dirs: Vec::new(), name: Some(name.to_string()), is_dir })
}

#[test]
fn finds_source_files_only() {
    let names = ["tmp", "a.py", "b.txt"];
    let entries = vec![entry(names[0], true), entry(names[1], false), entry(names[2], false)];

    let files = collect_candidate_files(&entries);
    assert_eq!(files.len(), 1);
    assert!(names[files[0]].ends_with("a.py"));
}

#[test]
fn source_files_go_by_the_extension() {
    let entries = vec![
        entry("A.RS", false),
        entry("dir.py", true),
        None,
        entry("x.hpp", false),
        Some(WalkEntry { dirs: Vec::new(), name: None, is_dir: false }),
        entry(".go", false),
        entry("Main.java", false),
        entry("a.tsx", false),
    ];
    assert_eq!(collect_candidate_files(&entries), vec![0, 3, 6]);
}

#[test]
fn some_directories_are_skipped() {
    let below = |dirs: &[&str]| {
        let dirs = dirs.iter().map(|name| name.to_string()).collect();
        Some(WalkEntry { dirs, name: Some("a.py".to_string()), is_dir: false })
    };
    let entries = vec![
        below(&["src", "deep"]),
        below(&[".git", "hooks"]),
        below(&["web", "node_modules", "pkg"]),
        below(&["target"]),
        below(&[".venv", "lib"]),
        below(&["dist"]),
        below(&["targets", ".github"]),
    ];
    assert_eq!(collect_candidate_files(&entries), vec![0, 6]);
}

#[test]
fn the_runtime_follows_the_configuration() {
    let runtime = runtime();
    assert_eq!(runtime.qdrant.url, "http://localhost:6334");
    assert_eq!(runtime.qdrant.collection, "chunks");
    assert_eq!(runtime.qdrant.api_key, Some("key".to_string()));
    assert_eq!(runtime.quickwit.index_id, "chunks");
    assert_eq!(runtime.quickwit.base_url, "http://localhost:7280/");
    assert_eq!(runtime.quickwit.shadow_path, ".opencodesearch/quickwit_shadow.jsonl");
    assert_eq!(runtime.ollama.url_str(), "http://localhost:11434/");
    let copy = runtime.clone();
    assert_eq!(copy.ollama.url_str(), "http://localhost:11434/");
    assert_eq!(copy.config.quickwit.quickwit_index_id, "chunks");
    let error = IndexingRuntime::from_config(config("no url")).err().unwrap();
    assert_eq!(error.message(), "invalid ollama server url");
}

#[test]
fn a_runtime_needs_a_client() {
    let client = ollama_rs::Ollama::try_new("http://other:1234").unwrap();
    let runtime = IndexingRuntime::with_client(config("no url"), Some(client)).ok().unwrap();
    assert_eq!(runtime.ollama.url_str(), "http://other:1234/");
    assert_eq!(runtime.config.ollama.server_url, "no url");
    assert!(IndexingRuntime::with_client(config("http://localhost:1"), None).is_err());
}

#[test]
fn all_chunks_are_written_in_order() {
    let mut job = new_job();
    job.on_event(IndexEvent::FileChunked(vec![chunk("a", 0), chunk("a", 1)]));
    job.on_event(IndexEvent::FileChunked(Vec::new()));
    job.on_event(IndexEvent::FileChunked(vec![chunk("b", 0)]));
    assert_eq!(job.stage, IndexStage::Chunk);
    job.on_event(IndexEvent::NoMoreFiles);
    assert_eq!(job.stage, IndexStage::Embed);
    let ids: Vec<&str> = job.chunks.iter().map(|c| c.id.as_str()).collect();
    assert_eq!(ids, vec!["a:0:1:2", "a:1:1:2", "b:0:1:2"]);
    job.on_event(IndexEvent::Embedded { first_len: Some(768) });
    assert_eq!(job.stage, IndexStage::EnsureCollection { vector_size: 768 });
    for stage in [IndexStage::Upsert, IndexStage::IndexText, IndexStage::Done, IndexStage::Done] {
        job.on_event(IndexEvent::Succeeded);
        assert_eq!(job.stage, stage);
    }
    assert_eq!(job.chunks.len(), 3);
}

#[test]
fn files_are_cut_into_chunks_of_the_context_size() {
    let code = "fn first() -> u32 {\n    1\n}\n\nfn second() -> u32 {\n    2\n}\n";
    let files = vec![source("a.rs", code), source("empty.py", " \n"), source("n.txt", "text")];
    let mut cfg = config("http://localhost:11434");
    cfg.ollama.context_size = 30;
    let job = IndexingRuntime::from_config(cfg).unwrap().index_files(&files);
    assert_eq!(job.stage, IndexStage::Embed);
    let found: Vec<(&str, &str)> =
        job.chunks.iter().map(|c| (c.path.as_str(), c.snippet.as_str())).collect();
    assert_eq!(found.len(), 3);
    assert_eq!(found[0].0, "/repo/a.rs");
    assert!(found[0].1.starts_with("fn first()"));
    assert!(found[1].1.starts_with("fn second()"));
    assert_eq!(found[2], ("/repo/n.txt", "text"));
    // With more room both functions are one chunk.
    let job = runtime().index_files(&files);
    assert_eq!(job.chunks.len(), 2);
}

#[test]
fn blank_files_need_no_indexing() {
    let job = runtime().index_files(&vec![source("a.py", ""), source("b.py", "\n\n")]);
    assert_eq!(job.stage, IndexStage::Done);
    assert!(job.chunks.is_empty());
    assert_eq!(runtime().index_files(&Vec::new()).stage, IndexStage::Done);
}

#[test]
fn without_chunks_nothing_is_written() {
    let mut job = new_job();
    job.on_event(IndexEvent::FileChunked(Vec::new()));
    job.on_event(IndexEvent::NoMoreFiles);
    assert_eq!(job.stage, IndexStage::Done);
    job.on_event(IndexEvent::Failed);
    assert_eq!(job.stage, IndexStage::Done);
}

#[test]
fn a_failure_ends_the_job() {
    let mut job = new_job();
    job.on_event(IndexEvent::FileChunked(vec![chunk("a", 0)]));
    job.on_event(IndexEvent::NoMoreFiles);
    job.on_event(IndexEvent::Embedded { first_len: None });
    assert_eq!(job.stage, IndexStage::EnsureCollection { vector_size: 1024 });
    job.on_event(IndexEvent::Failed);
    assert_eq!(job.stage, IndexStage::Failed);
    job.on_event(IndexEvent::Succeeded);
    assert_eq!(job.stage, IndexStage::Failed);
}

#[test]
fn the_first_vector_of_each_answer_is_kept() {
    let mut vectors: Vec<Vec<f32>> = Vec::new();
    assert!(keep_vector(&mut vectors, vec![vec![1.0, 2.0], vec![3.0]]));
    assert!(keep_vector(&mut vectors, vec![vec![4.0]]));
    assert_eq!(vectors, vec![vec![1.0, 2.0], vec![4.0]]);
    // An answer without a vector is no success.
    assert!(!keep_vector(&mut vectors, Vec::new()));
    assert_eq!(vectors.len(), 2);
    assert_eq!(first_vector(vec![5, 6, 7]), Some(5));
    assert_eq!(first_vector::<u8>(Vec::new()), None);
    assert_eq!(no_vector_message(), "ollama returned no embedding vector");
    assert_eq!(
        embedding_failure_message(&chunk("/r/a.rs", 0)),
        "ollama embedding request failed for /r/a.rs:1-2"
    );
}

#[test]
fn paths_and_everything_can_be_deleted() {
    let runtime = runtime();
    let line = shadow_line(&chunk("b", 0));
    let shadow = format!("{}\nbad\n{}\n", shadow_line(&chunk("a", 0)), line);
    let (points, text) = runtime.delete_paths(Some(&shadow), &vec!["a".to_string()]);
    let deletion = points.unwrap();
    assert_eq!(deletion.collection, "chunks");
    assert_eq!(deletion.paths, vec!["a"]);
    assert_eq!(text, Some(format!("{}\n", line)));
    let (points, text) = runtime.delete_paths(None, &Vec::new());
    assert!(points.is_none());
    assert_eq!(text, None);
    let (collection, request) = runtime.delete_all_stored_code(true);
    assert_eq!(collection, Some("chunks".to_string()));
    assert_eq!(request.shadow, "");
    assert_eq!(request.index_url, "http://localhost:7280/api/v1/indexes/chunks");
    assert_eq!(request.documents_url, "http://localhost:7280/api/v1/chunks/delete");
    assert_eq!(request.body, "{\"query\":\"*\"}");
    assert_eq!(runtime.delete_all_stored_code(false).0, None);
}
