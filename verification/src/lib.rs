//! Rango: a local-first memory substrate. This crate holds its verified core:
//! the document model, the query filter, the engine's state transitions, the
//! oplog framing, the governance control plane and the sync-hub decision logic.

pub mod types;
pub mod value;
pub mod float;
pub mod filter;
pub mod query;
pub mod text;
pub mod metrics;
pub mod revision;
pub mod size;
pub mod update;
pub mod store;
pub mod oplog;
pub mod uuid_gen;
pub mod engine;
pub mod sort;
pub mod cursor;
pub mod laws;
pub mod operator_laws;
pub mod fixed;
pub mod control_plane;
pub mod containment;
pub mod server;
pub mod json;
pub mod export;
pub mod sdk;
pub mod retrieval;
pub mod framing;
pub mod cli;
pub mod index;
