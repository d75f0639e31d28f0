//! Scylla's durable core: the reverse-engineering domain model, the client port over it, the
//! identity-anchored merge, and the A/B parity checks — verified.

pub mod text;
pub mod model;
pub mod merge;
pub mod diff;
pub mod graphql;
pub mod http;
pub mod lsp;
pub mod framing;
pub mod cli;
pub mod corpus;
pub mod mcp;
pub mod ingest;
pub mod ab_report;
pub mod port;
pub mod engine;
pub mod render;
pub mod abtest;
pub mod decomp;
pub mod tui;
pub mod schema;
