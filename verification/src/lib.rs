//! A semantic code-search core: a language-aware fragment extractor that
//! splits source files into embeddable documents, an in-memory vector
//! database keyed by worktree and path, and an indexing orchestrator that
//! fingerprints files, drives extraction and embedding, and serves ranked
//! similarity searches.

pub mod db;
pub mod embedding;
pub mod parsing;
pub mod similarity;
pub mod store;

pub use db::{FileRecord, VectorDb};
pub use embedding::{EmbedCall, EmbeddingError, EmbeddingProvider, FakeEmbeddingProvider};
pub use parsing::{CodeContextRetriever, Document, ParseError};
pub use similarity::dot;
pub use store::{ProjectState, SearchError, SearchResult, SourceFile, VectorStore};
