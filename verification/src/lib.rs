//! Local observability sidecar core: event schema, JSON codec, redaction,
//! body capture, daily log pipeline, tail reading, proxy decision logic,
//! and certificate-authority state.

pub mod body;
pub mod ca;
pub mod codec;
pub mod config;
pub mod hook;
pub mod json;
pub mod proxy;
pub mod redact;
pub mod schema;
pub mod tail;
pub mod writer;
