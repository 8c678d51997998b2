use opencodesearch::quickwit::{
    add_remote_hits, frame_lines, ingest_body, ingest_line, keep_lines, matches_query, read_reply,
    read_shadow, read_shadow_line, search_body, search_shadow, shadow_line, shadow_lines,
    QuickwitStore, KEYWORD_SCORE_BITS,
};
use opencodesearch::types::{CodeChunk, SearchHit};

fn store() -> QuickwitStore {
    QuickwitStore::new("http://localhost:7280//".to_string(), "chunks".to_string())
}

fn chunk(path: &str, snippet: &str) -> CodeChunk {
    CodeChunk {
        id: format!("{}:0:3:4", path),
        path: path.to_string(),
        snippet: snippet.to_string(),
        start_line: 3,
        end_line: 4,
    }
}

fn owned(list: &[&str]) -> Vec<String> {
    list.iter().map(|text| text.to_string()).collect()
}

fn paths(hits: &[SearchHit]) -> Vec<&str> {
    hits.iter().map(|hit| hit.path.as_str()).collect()
}

#[test]
fn addresses_have_no_double_slash() {
    let store = store();
    assert_eq!(store.health_url(), "http://localhost:7280/health/livez");
    assert_eq!(store.operation_url("search"), "http://localhost:7280/api/v1/chunks/search");
    assert_eq!(store.index_url(), "http://localhost:7280/api/v1/indexes/chunks");
    assert_eq!(store.shadow_path, ".opencodesearch/quickwit_shadow.jsonl");
}

#[test]
fn only_ok_is_healthy() {
    assert_eq!(store().health_check(200), Ok(()));
    assert_eq!(store().health_check(204), Err(204));
    assert_eq!(store().health_check(503), Err(503));
}

#[test]
fn chunks_are_framed_and_sent() {
    let chunks = vec![chunk("/r/a", "x\n\"y\""), chunk("/r/b", "z")];
    let request = store().index_chunks(&chunks).unwrap();
    assert_eq!(
        request.append,
        format!("{}\n{}\n", shadow_line(&chunks[0]), shadow_line(&chunks[1]))
    );
    assert_eq!(request.ingest_url, "http://localhost:7280/api/v1/chunks/ingest");
    let lines: Vec<&str> = request.body.lines().collect();
    assert_eq!(lines.len(), 2);
    assert!(request.body.ends_with('\n'));
    assert_eq!(lines[0], ingest_line(&chunks[0]));
    assert_eq!(request.body, ingest_body(&chunks));
    let document: serde_json::Value = serde_json::from_str(lines[0]).unwrap();
    assert_eq!(document["path"].as_str(), Some("/r/a"));
    assert_eq!(document["snippet"].as_str(), Some("x\n\"y\""));
    assert_eq!(document["start_line"].as_u64(), Some(3));
    assert_eq!(document["end_line"].as_u64(), Some(4));
    assert_eq!(document.as_object().unwrap().len(), 4);
    assert!(store().index_chunks(&Vec::new()).is_none());
}

#[test]
fn appended_lines_are_read_back() {
    let list = owned(&["{\"a\":1}", "{\"b\":2}"]);
    let content = format!("first\n{}", frame_lines(&list));
    assert_eq!(shadow_lines(&content), owned(&["first", "{\"a\":1}", "{\"b\":2}"]));
    assert_eq!(shadow_lines("\n  \nx\r\n\n"), owned(&["x"]));
    assert_eq!(frame_lines(&Vec::new()), "");
}

#[test]
fn an_indexed_chunk_is_found_again() {
    let mut indexed = chunk("/r/a b.rs", "say \"hi\"\n\u{e4}\\ end\r\n");
    indexed.start_line = 7;
    indexed.end_line = usize::MAX >> 1;
    let append = store().index_chunks(&vec![indexed.clone()]).unwrap().append;
    for query in ["", "A B", "SAY \"hi\"\n", "end\r"] {
        let hits = store().keyword_search(query, 3, Some(&append), None);
        assert_eq!(hits.len(), 1);
        assert_eq!(hits[0].path, indexed.path);
        assert_eq!(hits[0].snippet, indexed.snippet);
        assert_eq!(hits[0].start_line, 7);
        assert_eq!(hits[0].end_line, indexed.end_line as i64);
        assert_eq!(hits[0].source, "quickwit-shadow");
    }
    assert!(store().keyword_search("other", 3, Some(&append), None).is_empty());
    assert!(store().keyword_search("", 3, None, None).is_empty());
    let more = format!("{}{}", append, store().index_chunks(&vec![chunk("b", "x")]).unwrap().append);
    assert_eq!(paths(&store().keyword_search("", 9, Some(&more), None)), vec!["/r/a b.rs", "b"]);
}

#[test]
fn shadow_lines_hold_chunks() {
    let line = "{\"id\":\"i\",\"path\":\"p\",\"snippet\":\"s\",\"start_line\":1,\"end_line\":2,\"more\":[]}";
    let read = read_shadow_line(line).unwrap();
    assert_eq!((read.id.as_str(), read.path.as_str(), read.snippet.as_str()), ("i", "p", "s"));
    assert_eq!((read.start_line, read.end_line), (1, 2));
    let read = read_shadow_line("[\"i\",\"p\",\"s\",1,2]").unwrap();
    assert_eq!((read.path.as_str(), read.end_line), ("p", 2));
    for bad in [
        "",
        "x",
        "{}",
        "[\"i\",\"p\",\"s\",1,2,3]",
        "[\"i\",\"p\",\"s\",1]",
        "{\"id\":\"i\",\"path\":\"p\",\"snippet\":\"s\",\"start_line\":1}",
        "{\"id\":\"i\",\"path\":\"p\",\"snippet\":\"s\",\"start_line\":1,\"end_line\":-2}",
        "{\"id\":7,\"path\":\"p\",\"snippet\":\"s\",\"start_line\":1,\"end_line\":2}",
    ] {
        assert!(read_shadow_line(bad).is_none(), "{}", bad);
    }
    let members = "\"id\":\"i\",\"path\":\"p\",\"snippet\":\"s\",\"start_line\":1,\"end_line\":2";
    let twice = read_shadow_line(&format!("{{{},\"path\":\"q\"}}", members)).unwrap();
    assert_eq!(twice.path, "q");
    assert!(read_shadow_line(&format!("{{{},\"more\":1e999}}", members)).is_none());
    let nested = |depth: usize| format!("{}{}", "[".repeat(depth), "]".repeat(depth));
    assert!(read_shadow_line(&format!("{{{},\"more\":{}}}", members, nested(126))).is_some());
    assert!(read_shadow_line(&format!("{{{},\"more\":{}}}", members, nested(127))).is_none());
    let records = read_shadow(&format!("bad\n\n{}\n", line));
    assert!(records[0].is_none());
    assert_eq!(records[1].as_ref().unwrap().id, "i");
    assert_eq!(records.len(), 2);
}

#[test]
fn deleting_twice_is_deleting_once() {
    let chunks = vec![chunk("a", "x"), chunk("b", "y"), chunk("c", "z")];
    let shadow = format!("\nbad\n{}", store().index_chunks(&chunks).unwrap().append);
    let gone = owned(&["b"]);
    let once = store().delete_paths(&shadow, &gone);
    assert_eq!(once, format!("{}\n{}\n", shadow_line(&chunks[0]), shadow_line(&chunks[2])));
    assert_eq!(store().delete_paths(&once, &gone), once);
    assert_eq!(paths(&store().keyword_search("", 9, Some(&once), None)), vec!["a", "c"]);
    assert_eq!(store().delete_paths("", &gone), "");
}

#[test]
fn queries_match_regardless_of_case() {
    let chunk = chunk("/Repo/File.rs", "fn Transform() {}");
    assert!(matches_query(&chunk, "transform"));
    assert!(matches_query(&chunk, "repo/FILE"));
    assert!(matches_query(&chunk, "rs\nfn"));
    assert!(matches_query(&chunk, ""));
    assert!(!matches_query(&chunk, "transforms"));
}

#[test]
fn the_shadow_index_is_searched_in_order() {
    let records = vec![
        Some(chunk("a", "needle")),
        None,
        Some(chunk("b", "hay")),
        Some(chunk("c", "Needle")),
        Some(chunk("d", "needle")),
    ];
    let hits = search_shadow(&records, "needle", 10);
    assert_eq!(paths(&hits), vec!["a", "c", "d"]);
    assert_eq!(hits[0].source, "quickwit-shadow");
    assert_eq!((hits[0].start_line, hits[0].end_line), (3, 4));
    assert_eq!(f32::from_bits(hits[0].score_bits), 1.0);
    assert_eq!(KEYWORD_SCORE_BITS, 1.0f32.to_bits());
    assert_eq!(paths(&search_shadow(&records, "needle", 2)), vec!["a", "c"]);
    // With no room the first record alone is looked at.
    assert_eq!(paths(&search_shadow(&records, "needle", 0)), vec!["a"]);
    assert!(search_shadow(&records, "hay", 0).is_empty());
}

#[test]
fn requests_are_json() {
    let body: serde_json::Value = serde_json::from_str(&search_body("a \"b\"", 7)).unwrap();
    assert_eq!(body["query"].as_str(), Some("a \"b\""));
    assert_eq!(body["max_hits"].as_u64(), Some(7));
}

#[test]
fn replies_are_read_leniently() {
    let body = "{\"hits\":[{\"path\":\"p\",\"snippet\":\"s\",\"start_line\":5,\"end_line\":6},{\"path\":1,\"start_line\":-2}]}";
    let items = read_reply(body.as_bytes()).unwrap();
    assert_eq!(items.len(), 2);
    assert_eq!(items[0].path, Some("p".to_string()));
    assert_eq!(items[0].snippet, Some("s".to_string()));
    assert_eq!((items[0].start_line, items[0].end_line), (Some(5), Some(6)));
    assert_eq!((items[1].path.clone(), items[1].snippet.clone()), (None, None));
    assert_eq!((items[1].start_line, items[1].end_line), (None, None));
    assert!(read_reply("{\"hits\":{}}".as_bytes()).is_none());
    assert!(read_reply("{}".as_bytes()).is_none());
    assert!(read_reply("[]".as_bytes()).is_none());
    assert!(read_reply("no json".as_bytes()).is_none());
}

#[test]
fn the_server_adds_to_the_shadow_index() {
    let reply = "{\"hits\":[{\"path\":\"r1\",\"start_line\":5},{\"path\":\"r2\"},{\"path\":\"r3\"}]}";
    let shadow = store().index_chunks(&vec![chunk("a", "needle"), chunk("b", "needle")]).unwrap().append;
    let search = |limit: usize, reply: Option<&str>| {
        store().keyword_search("needle", limit, Some(&shadow), reply.map(|body| body.as_bytes().to_vec()))
    };
    let hits = search(4, Some(reply));
    assert_eq!(paths(&hits), vec!["a", "b", "r1", "r2"]);
    assert_eq!(hits[2].source, "quickwit");
    assert_eq!((hits[2].start_line, hits[2].end_line), (5, 0));
    assert_eq!(hits[2].score_bits, KEYWORD_SCORE_BITS);
    assert_eq!(paths(&search(4, None)), vec!["a", "b"]);
    assert_eq!(paths(&search(4, Some("no json"))), vec!["a", "b"]);
    // The first hit of the server is taken even when there is no room.
    assert_eq!(paths(&search(2, Some(reply))), vec!["a", "b", "r1"]);
    let mut hits = Vec::new();
    add_remote_hits(&mut hits, &None, 3);
    assert!(hits.is_empty());
}

#[test]
fn deleted_paths_are_not_found() {
    let list = owned(&["la", "lb", "bad", "lc"]);
    let records = vec![Some(chunk("a", "x")), Some(chunk("b", "x")), None, Some(chunk("c", "x"))];
    let left = keep_lines(&list, &records, &owned(&["b", "z"]));
    assert_eq!(left, "la\nlc\n");
    assert_eq!(shadow_lines(&left), owned(&["la", "lc"]));
    assert_eq!(keep_lines(&list, &records, &owned(&["a", "b", "c"])), "");
    assert_eq!(keep_lines(&list, &records, &Vec::new()), "la\nlb\nlc\n");
}
