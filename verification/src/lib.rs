//! Persistence layer for a content-filtering engine: converts the engine's
//! in-memory rule structures to and from a single versioned binary blob, with
//! byte-stable output for the hash-backed collections and an append-only,
//! forwards- and backwards-compatible field schema.

pub mod codec;
pub mod errors;
pub mod format;
pub mod order;
pub mod state;
