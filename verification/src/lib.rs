//! Builds draw.io diagrams out of HTML decision tables, with the text
//! handling, graph traversal and compaction rules proved correct.

pub mod text;
pub mod bindings;
pub mod drawio;
pub mod links;
pub mod table;
pub mod graph;
pub mod building;
pub mod compaction;
pub mod export;
pub mod order;
pub mod shell;
pub mod sheet;
pub mod guess;
pub mod words;
pub mod ownership;
pub mod recovery;
