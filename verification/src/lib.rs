//! An in-memory provenance graph for chunked document content.
//!
//! Documents are segmented into line-level content nodes, deduplicated by
//! (content, filename) identity, and wired into an append-only directed
//! graph: structural edges record sequential "next chunk" relationships,
//! reference edges record provenance links. Traversal follows the
//! highest-version outgoing structural edge to reconstruct the latest
//! version of a document; breadth-first closures over the reference edges
//! answer forward and backward influence queries.

pub mod edge_table;
pub mod kb;
pub mod ledger;
pub mod node_set;
pub mod reach;
pub mod text;
