//! Semantic-tree maintenance for a line-oriented, indentation-structured
//! outline format: a byte-level text differ, a semantic tree builder over a
//! concrete syntax tree, a minimum-cost tree diff engine, and a reconciler
//! that carries per-node metadata across snapshots.

pub mod syntax;
pub mod levenshtein;
pub mod text_diff;
pub mod node;
pub mod context;
pub mod tree_diff;
pub mod patch;
pub mod printer;
pub mod extract_priorities;
