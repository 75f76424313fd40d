//! Starling maintains a live, in-memory knowledge graph derived from a watched
//! directory of Markdown and Org documents. Each document contributes a tree of
//! nodes with stable identifiers, titles, tags, and typed links to other nodes;
//! the library reconciles the graph with the on-disk state by debouncing
//! filesystem events, diffing reparsed documents, applying instruction streams
//! to the global maps, and arbitrating conflicts between corrective writes and
//! out-of-band writes.

pub mod chars;
pub mod config;
pub mod conflict_detector;
pub mod connection;
pub mod debouncer;
pub mod document;
pub mod error;
pub mod fs_engine;
pub mod graph;
pub mod ids;
pub mod keymap;
pub mod node;
pub mod patch;
pub mod path_node;
