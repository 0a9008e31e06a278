//! Builds the call graph of a binary and answers questions about it: what its functions call, what
//! lies around a node, and which of its nodes a traced run comes to.
pub mod adjacency;
pub mod analysis;
pub mod binary;
pub mod bytes;
pub mod callgraph;
pub mod calls;
pub mod decode;
pub mod detection;
pub mod dynamic;
pub mod hardening;
pub mod hits;
pub mod image;
pub mod info;
pub mod neighborhood;
pub mod order;
pub mod overview;
pub mod recording;
pub mod report;
pub mod runs;
pub mod search;
pub mod server;
pub mod session;
pub mod symbols;
pub mod tables;
pub mod text;
pub mod trace;
pub mod walk;
