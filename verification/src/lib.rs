//! Deterministic source-code knowledge-graph extraction.

pub mod text;
pub mod naming;
pub mod order;
pub mod facts;
pub mod edges;
pub mod table;
pub mod typeenv;
pub mod lang;
pub mod imports;
pub mod syntax;
pub mod declared;
pub mod parse;
pub mod code_parse;
pub mod walk;
pub mod extract;
pub mod resolve;
pub mod mentions;
pub mod records;
pub mod measurement;
pub mod producer;
pub mod tree_cli;
pub mod tally;
pub mod scoring;
