//! Relay graph: a compiler-error-centred code graph, its deduplicating
//! builder, a cycle detector and a layered layout engine.

pub mod types;
pub mod cycle;
pub mod layout;
pub mod crossing;
pub mod builder;
pub mod assembly;
pub mod error_parser;
pub mod orchestrator;
