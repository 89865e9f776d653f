//! The typed in-memory model of the definition language's documents.

pub mod interface;
pub mod manifest;
