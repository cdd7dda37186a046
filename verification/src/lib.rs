//! Verified core of a realtime voice assistant backend: document store and
//! keyword ranking for retrieval, incremental parsing of streamed model
//! output, request framing for the model API, and the decisions taken on
//! each chat-socket event.

pub mod config;
pub mod gemini;
pub mod handlers;
pub mod json;
pub mod rag;
pub mod stream;
pub mod text;
