use opencodesearch::config::{
    AppConfig, CodebaseConfig, OllamaConfig, QdrantConfig, QuickwitConfig,
};
use opencodesearch::indexing::IndexingRuntime;
use opencodesearch::mcp::{
    address_of_parts, build_mcp_router, listening_line, merge_hits, mounted_path,
    parse_mcp_server_url, rank_hits, take_best, tls_files, BindScheme, Mount,
    OpenCodeSearchMcpServer, SearchRequest, ServerUrlError,
};
use opencodesearch::types::SearchHit;
use opencodesearch::url::UrlParts;

fn config(server_name: &str, ollama_url: &str) -> AppConfig {
    AppConfig {
        codebase: CodebaseConfig {
            directory_path: ".".to_string(),
            git_branch: "main".to_string(),
            commit_threshold: 50,
            mcp_server_name: server_name.to_string(),
            mcp_server_url: "http://localhost:9443".to_string(),
            background_indexing_threads: 1,
        },
        ollama: OllamaConfig {
            server_url: ollama_url.to_string(),
            embedding_model: "qwen3-embedding:0.6b".to_string(),
            context_size: 2000,
        },
        qdrant: QdrantConfig {
            server_url: "http://localhost:6334".to_string(),
            collection_name: "opencodesearch-code-chunks".to_string(),
            api_key: None,
        },
        quickwit: QuickwitConfig {
            quickwit_url: "http://localhost:7280".to_string(),
            quickwit_index_id: "opencodesearch-code-chunks".to_string(),
        },
    }
}

fn server() -> OpenCodeSearchMcpServer {
    let runtime = IndexingRuntime::from_config(config("Test", "http://127.0.0.1:1")).unwrap();
    OpenCodeSearchMcpServer::new(runtime)
}

fn hit(path: &str, start: i64, score: f32, source: &str) -> SearchHit {
    SearchHit {
        path: path.to_string(),
        snippet: format!("{} {}", path, start),
        start_line: start,
        end_line: start + 1,
        score_bits: score.to_bits(),
        source: source.to_string(),
    }
}

fn names(hits: &[SearchHit]) -> Vec<(String, i64, String)> {
    hits.iter().map(|h| (h.path.clone(), h.start_line, h.source.clone())).collect()
}

#[test]
fn tool_description_contains_configured_server_name() {
    let cfg = config("My cool codebase", "http://localhost:11434");
    let runtime = IndexingRuntime::from_config(cfg).expect("runtime should build");
    let server = OpenCodeSearchMcpServer::new(runtime);
    let description = server.description.as_str();
    assert!(description.contains("My cool codebase"));
    assert_eq!(
        description,
        "Largescale codebase search for My cool codebase and return snippets + path + line ranges"
    );
}

#[test]
fn mcp_server_url_parsing_supports_http_and_https() {
    let http = parse_mcp_server_url("http://127.0.0.1:9000/mcp").expect("http parse");
    assert_eq!(http.scheme, BindScheme::Http);
    assert_eq!(http.port, 9000);
    assert_eq!(http.path, "/mcp");

    let https = parse_mcp_server_url("https://localhost").expect("https parse");
    assert_eq!(https.scheme, BindScheme::Https);
    assert_eq!(https.port, 443);
    assert_eq!(https.path, "/");
}

#[test]
fn mcp_server_url_parsing_rejects_unsupported_scheme() {
    let err = parse_mcp_server_url("tcp://localhost:9443").expect_err("must reject tcp");
    assert!(err.message().contains("http or https"));
    assert_eq!(err.message(), "mcp_server_url must use http or https scheme, got 'tcp'");
}

#[test]
fn server_urls_are_taken_apart() {
    let address = parse_mcp_server_url("HTTP://Example.COM/a/b//?q=1").unwrap();
    assert_eq!(address.host, "example.com");
    assert_eq!(address.port, 80);
    assert_eq!(address.path, "/a/b");
    let address = parse_mcp_server_url("https://[::1]:8443/x").unwrap();
    assert_eq!(address.host, "[::1]");
    assert_eq!(address.port, 8443);
    let error = parse_mcp_server_url("no url").unwrap_err();
    assert!(matches!(error, ServerUrlError::Invalid(_)));
    assert_eq!(error.message(), "invalid mcp_server_url no url");
}

#[test]
fn addresses_follow_from_the_parts() {
    let parts = |scheme: &str, host: Option<&str>, path: &str| {
        Some(UrlParts {
            text: "u".to_string(),
            scheme: scheme.to_string(),
            host: host.map(|h| h.to_string()),
            port: None,
            path: path.to_string(),
        })
    };
    let address = address_of_parts("u", parts("http", Some("h"), "")).unwrap();
    assert_eq!((address.port, address.path.as_str()), (80, "/"));
    let error = address_of_parts("u", parts("https", None, "/")).unwrap_err();
    assert!(matches!(error, ServerUrlError::MissingHost));
    assert_eq!(error.message(), "mcp_server_url is missing host");
    let error = address_of_parts("u", parts("ftp", None, "/")).unwrap_err();
    assert!(matches!(error, ServerUrlError::UnsupportedScheme(_)));
    assert!(matches!(address_of_parts("u", None), Err(ServerUrlError::Invalid(_))));
}

#[test]
fn mount_paths_have_one_slash_in_front() {
    for (raw, path) in [("", "/"), ("/", "/"), ("//", "/"), ("/mcp", "/mcp"), ("mcp//", "/mcp"), ("/a/b/", "/a/b")] {
        assert_eq!(mounted_path(raw), path);
        assert_eq!(mounted_path(path), path);
    }
    assert!(matches!(build_mcp_router("/"), Mount::Root));
    match build_mcp_router("/mcp") {
        Mount::Nested(path) => assert_eq!(path, "/mcp"),
        Mount::Root => panic!("not at the root"),
    }
}

#[test]
fn startup_lines_and_tls_files() {
    assert_eq!(
        listening_line(BindScheme::Http, "127.0.0.1", 9000, "/mcp"),
        "MCP HTTP server listening on http://127.0.0.1:9000/mcp"
    );
    assert_eq!(
        listening_line(BindScheme::Https, "::1", 443, "/"),
        "MCP HTTPS server listening on https://::1:443/"
    );
    let (cert, key) = tls_files(None, Some("k.pem".to_string()));
    assert_eq!(cert, "certs/localhost-cert.pem");
    assert_eq!(key, "k.pem");
    let (cert, key) = tls_files(Some("c.pem".to_string()), None);
    assert_eq!(cert, "c.pem");
    assert_eq!(key, "certs/localhost-key.pem");
}

#[test]
fn ranking_agrees_with_the_total_order() {
    let scores = [
        0.5, -0.0, 0.0, 1.0, -1.0, f32::NAN, -f32::NAN, f32::INFINITY, f32::NEG_INFINITY, 1.0e-40,
        -1.0e-40, f32::MAX, f32::MIN, 0.5, 1.0,
    ];
    let hits: Vec<SearchHit> =
        scores.iter().enumerate().map(|(i, score)| hit("p", i as i64, *score, "s")).collect();
    let mut expected = hits.clone();
    expected.sort_by(|a, b| {
        f32::from_bits(b.score_bits).total_cmp(&f32::from_bits(a.score_bits))
    });
    assert_eq!(names(&rank_hits(&hits)), names(&expected));
}

#[test]
fn duplicates_are_left_out() {
    let hits = vec![hit("a", 1, 0.9, "x"), hit("a", 1, 0.8, "y"), hit("b", 1, 0.7, "x"), hit("a", 2, 0.6, "x")];
    let best = take_best(&hits, 10);
    assert_eq!(best.len(), 3);
    assert_eq!(best[0].source, "x");
    assert_eq!(take_best(&hits, 2).len(), 2);
    // At least one hit stays where there is one.
    assert_eq!(take_best(&hits, 0).len(), 1);
    assert!(take_best(&Vec::new(), 0).is_empty());
}

#[test]
fn both_backends_are_merged() {
    let semantic = vec![hit("a", 1, 0.4, "qdrant"), hit("b", 1, 1.2, "qdrant"), hit("c", 1, 1.0, "qdrant")];
    let keyword = vec![hit("a", 1, 1.0, "quickwit"), hit("d", 1, 1.0, "quickwit")];
    let merged = merge_hits(&semantic, &keyword, 8);
    let paths: Vec<&str> = merged.iter().map(|h| h.path.as_str()).collect();
    assert_eq!(paths, vec!["b", "c", "a", "d"]);
    assert_eq!(merged[2].source, "quickwit");
    let paths: Vec<String> =
        merge_hits(&semantic, &keyword, 2).iter().map(|h| h.path.clone()).collect();
    assert_eq!(paths, vec!["b".to_string(), "c".to_string()]);
}

#[test]
fn limits_are_bounded() {
    let limit = |limit: Option<usize>| SearchRequest { query: String::new(), limit }.effective_limit();
    assert_eq!(limit(None), 8);
    assert_eq!(limit(Some(0)), 1);
    assert_eq!(limit(Some(3)), 3);
    assert_eq!(limit(Some(50)), 50);
    assert_eq!(limit(Some(51)), 50);
}

#[test]
fn servers_can_be_copied() {
    let server = server();
    assert_eq!(server.clone().description, server.description);
}

#[test]
fn search_fails_only_with_the_vector_store() {
    let request = SearchRequest { query: "where is obj changed".to_string(), limit: Some(3) };
    let found = || vec![hit("a", 1, 0.5, "qdrant"), hit("b", 1, 0.6, "qdrant")];
    let error = server()
        .search_code(&request, Err("failed embedding query with ollama".to_string()), Ok(found()))
        .unwrap_err();
    assert_eq!(error, "failed embedding query with ollama");
    let response = server().search_code(&request, Ok(found()), Err("no index".to_string())).unwrap();
    assert_eq!(response.hits.len(), 2);
    assert_eq!(response.hits[0].path, "b");
    let many: Vec<SearchHit> = (0..9).map(|i| hit("k", i * 10, 1.0, "quickwit")).collect();
    let response = server().search_code(&request, Ok(found()), Ok(many)).unwrap();
    assert_eq!(response.hits.len(), 3);
    assert_eq!(response.hits[0].source, "quickwit");
    let hits = server().search_internal(Ok(found()), Ok(Vec::new()), 1).unwrap();
    assert_eq!(hits.len(), 1);
}
