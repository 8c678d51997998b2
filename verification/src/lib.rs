//! The verified core of a code search server: how source files are cut into
//! chunks, how the two search backends are fed and read, how their hits are
//! merged, and how the processes around them are supervised.

pub mod chunking;
pub mod chunking_laws;
pub mod cli;
pub mod config;
pub mod find;
pub mod indexing;
pub mod json;
pub mod lines;
pub mod mcp;
pub mod mcp_laws;
pub mod number;
pub mod orchestrator;
pub mod orchestrator_laws;
pub mod paths;
pub mod qdrant_store;
pub mod quickwit;
pub mod quickwit_laws;
pub mod text;
pub mod types;
pub mod url;
pub mod watchdog;
pub mod watchdog_laws;
