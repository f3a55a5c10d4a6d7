//! Indexing and retrieval core of a local document question-answering engine:
//! text cleaning and chunking, document selection and fingerprints, the
//! full-text query, candidate fusion and diversification, the embedding
//! pipeline's decisions, the watcher's debounce, and the model-server protocol
//! details. Storage, HTTP, file access and floating-point scoring live with
//! the caller.

pub mod chunker;
pub mod docx;
pub mod document;
pub mod embedding;
pub mod fts;
pub mod indexer;
pub mod model_server;
pub mod retrieval;
pub mod targets;
pub mod text;
pub mod watcher;
