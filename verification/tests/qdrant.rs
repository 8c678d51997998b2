use std::collections::HashMap;
use std::hash::{Hash, Hasher};

use opencodesearch::qdrant_store::{
    chunk_payload, display_point, hit_of_display, parse_displayed, stable_u64_id, value_to_usize,
    DisplayedPoint, QdrantStore, UpsertError,
};
use opencodesearch::types::CodeChunk;
use qdrant_client::qdrant::{ScoredPoint, Value};

fn store() -> QdrantStore {
    QdrantStore::new("http://localhost:6334", None, "chunks")
}

fn chunk(path: &str, snippet: &str) -> CodeChunk {
    CodeChunk {
        id: format!("{}:0:3:9", path),
        path: path.to_string(),
        snippet: snippet.to_string(),
        start_line: 3,
        end_line: 9,
    }
}

fn point(payload: HashMap<String, Value>, score: f32) -> ScoredPoint {
    ScoredPoint { payload, score, ..Default::default() }
}

#[test]
fn an_empty_key_is_no_key() {
    assert_eq!(store().api_key, None);
    assert_eq!(QdrantStore::new("u", Some(""), "c").api_key, None);
    let store = QdrantStore::new("u", Some("k"), "c");
    assert_eq!(store.api_key, Some("k".to_string()));
    assert_eq!((store.url.as_str(), store.collection.as_str()), ("u", "c"));
}

#[test]
fn collections_are_created_and_dropped_once() {
    let create = store().ensure_collection(false, 768).unwrap();
    assert_eq!((create.name.as_str(), create.vector_size), ("chunks", 768));
    assert!(store().ensure_collection(true, 768).is_none());
    assert_eq!(store().delete_all_code(true), Some("chunks".to_string()));
    assert_eq!(store().delete_all_code(false), None);
}

#[test]
fn points_are_deleted_by_path() {
    let paths = vec!["/r/a".to_string(), "/r/b".to_string()];
    let deletion = store().delete_paths(&paths).unwrap();
    assert_eq!((deletion.collection.as_str(), deletion.key.as_str()), ("chunks", "path"));
    assert_eq!(deletion.paths, paths);
    let payload: HashMap<String, Value> = chunk_payload(&chunk("/r/a", "x")).unwrap().into();
    assert_eq!(payload[&deletion.key], Value::from("/r/a"));
    assert!(store().delete_paths(&Vec::new()).is_none());
}

#[test]
fn ids_are_stable() {
    for text in ["", "a", "/repo/a.rs:0:1:2"] {
        let mut hasher = std::collections::hash_map::DefaultHasher::new();
        text.hash(&mut hasher);
        assert_eq!(stable_u64_id(text), hasher.finish());
        assert_eq!(stable_u64_id(text), stable_u64_id(text));
    }
    assert_ne!(stable_u64_id("a"), stable_u64_id("b"));
}

#[test]
fn every_chunk_becomes_a_point() {
    let chunks = vec![chunk("/r/a", "x"), chunk("/r/b", "y")];
    let points = store().upsert_chunks(&chunks, 2).unwrap();
    assert_eq!(points.len(), 2);
    assert_eq!(points[1].id, stable_u64_id("/r/b:0:3:9"));
    let payload: HashMap<String, Value> = points[1].payload.clone().into();
    assert_eq!(payload.len(), 5);
    assert_eq!(payload["path"], Value::from("/r/b"));
    assert_eq!(payload["snippet"], Value::from("y"));
    assert_eq!(payload["start_line"], Value::from(3i64));
    assert_eq!(payload["end_line"], Value::from(9i64));
    assert_eq!(payload["chunk_id"], Value::from("/r/b:0:3:9"));
    assert!(store().upsert_chunks(&Vec::new(), 5).unwrap().is_empty());
}

#[test]
fn vectors_must_be_as_many_as_chunks() {
    let error = store().upsert_chunks(&vec![chunk("a", "x")], 2).err().unwrap();
    assert_eq!(error, UpsertError::CountMismatch { chunks: 1, embeddings: 2 });
    assert_eq!(error.message(), "embedding count mismatch: chunks=1 embeddings=2");
    assert_eq!(UpsertError::Payload.message(), "failed converting payload for qdrant point");
}

#[test]
fn numbers_are_read_from_their_display() {
    assert_eq!(value_to_usize(&Value::from(12i64)), Some(12));
    assert_eq!(value_to_usize(&Value::from(-12i64)), None);
    assert_eq!(value_to_usize(&Value::from("34")), Some(34));
    assert_eq!(value_to_usize(&Value::from("x")), None);
    assert_eq!(value_to_usize(&Value::from(true)), None);
    assert_eq!(value_to_usize(&Value::from(false)), None);
    assert_eq!(value_to_usize(&Value::default()), None);
    assert_eq!(parse_displayed("\"\"7\""), Some(7));
    assert_eq!(parse_displayed("7.0"), None);
}

#[test]
fn a_point_of_a_chunk_gives_it_back() {
    let chunk = chunk("/repo/src/a.rs", "let x = 1;");
    let payload: HashMap<String, Value> = chunk_payload(&chunk).unwrap().into();
    let hits = store().semantic_search(&vec![point(payload, 0.25)]);
    assert_eq!(hits.len(), 1);
    assert_eq!(hits[0].path, "/repo/src/a.rs");
    assert_eq!(hits[0].snippet, "let x = 1;");
    assert_eq!((hits[0].start_line, hits[0].end_line), (3, 9));
    assert_eq!(f32::from_bits(hits[0].score_bits), 0.25);
    assert_eq!(hits[0].source, "qdrant");
}

#[test]
fn null_and_truth_values_are_words() {
    let mut payload: HashMap<String, Value> = HashMap::new();
    payload.insert("path".to_string(), Value::from(true));
    payload.insert("snippet".to_string(), Value::from(serde_json::Value::Null));
    payload.insert("start_line".to_string(), Value::default());
    payload.insert("end_line".to_string(), Value::from(false));
    let point = point(payload, 0.5);
    let displayed = display_point(&point);
    assert_eq!(displayed.path, Some("true".to_string()));
    assert_eq!(displayed.snippet, Some("null".to_string()));
    assert_eq!(displayed.start_line, Some("null".to_string()));
    assert_eq!(displayed.end_line, Some("false".to_string()));
    let hits = store().semantic_search(&vec![point]);
    assert_eq!((hits[0].start_line, hits[0].end_line), (0, 0));
}

#[test]
fn texts_come_back_with_escapes() {
    let chunk = chunk("/r/a", "say \"hi\"\n");
    let payload: HashMap<String, Value> = chunk_payload(&chunk).unwrap().into();
    let displayed = display_point(&point(payload, 0.0));
    assert_eq!(displayed.snippet, Some("\"say \\\"hi\\\"\\n\"".to_string()));
    assert_eq!(hit_of_display(&displayed).snippet, "say \\\"hi\\\"\\n");
}

#[test]
fn missing_members_are_empty() {
    let hits = store().semantic_search(&vec![point(HashMap::new(), -1.5)]);
    assert_eq!((hits[0].path.as_str(), hits[0].snippet.as_str()), ("", ""));
    assert_eq!((hits[0].start_line, hits[0].end_line), (0, 0));
    assert_eq!(f32::from_bits(hits[0].score_bits), -1.5);
    let hit = hit_of_display(&DisplayedPoint {
        path: Some("\"a\"".to_string()),
        snippet: None,
        start_line: Some("8".to_string()),
        end_line: Some("x".to_string()),
        score_bits: 5,
    });
    assert_eq!(hit.path, "a");
    assert_eq!((hit.start_line, hit.end_line, hit.score_bits), (8, 0, 5));
}
