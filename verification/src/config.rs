//! The configuration of the server.

use vstd::prelude::*;

verus! {

/// The whole configuration.
#[derive(Debug, Clone)]
pub struct AppConfig {
    pub codebase: CodebaseConfig,
    pub ollama: OllamaConfig,
    pub qdrant: QdrantConfig,
    pub quickwit: QuickwitConfig,
}

/// The code base and how it is served.
#[derive(Debug, Clone)]
pub struct CodebaseConfig {
    pub directory_path: String,
    pub git_branch: String,
    pub commit_threshold: usize,
    pub mcp_server_name: String,
    pub mcp_server_url: String,
    pub background_indexing_threads: usize,
}

/// The embedding service.
#[derive(Debug, Clone)]
pub struct OllamaConfig {
    pub server_url: String,
    pub embedding_model: String,
    pub context_size: usize,
}

/// The vector store.
#[derive(Debug, Clone)]
pub struct QdrantConfig {
    pub server_url: String,
    pub collection_name: String,
    pub api_key: Option<String>,
}

/// The keyword index.
#[derive(Debug, Clone)]
pub struct QuickwitConfig {
    pub quickwit_url: String,
    pub quickwit_index_id: String,
}

} // verus!
