//! Corpus: the engine of a local retrieval-augmented answer app.

pub mod bm25;
pub mod caption_cache;
pub mod chat;
pub mod chunk;
pub mod cli;
pub mod config;
pub mod desktop;
pub mod embed;
pub mod endpoint;
pub mod figures;
pub mod ingest;
pub mod json;
pub mod pipeline;
pub mod render;
pub mod salvage;
pub mod score;
pub mod search;
pub mod server;
pub mod session;
pub mod split;
pub mod store;
pub mod text;
pub mod text_map;
pub mod vision;

pub use config::DEFAULT_K;
pub use ingest::{IngestProgress, IngestReport, Stage, remove_document};
pub use search::{
    SearchResult, format_documents, format_results, format_results_numbered, search,
};
pub use store::{Chunk, DocumentRecord, Index, IndexMetadata};
