//! A B-link tree of byte keys and values: leaves are chained to their
//! neighbours, and inner nodes route by upper bounds of their children.
pub mod change;
pub mod contents;
pub mod descent;
pub mod edge;
pub mod evict;
pub mod grow;
pub mod grow_inner;
pub mod growth;
pub mod insert;
pub mod insert_laws;
pub mod laws;
pub mod merge_inner;
pub mod merge_leaf;
pub mod node;
pub mod placing;
pub mod rebalance;
pub mod remove;
pub mod remove_laws;
pub mod retry;
pub mod room;
pub mod scan;
pub mod state;
pub mod stats;
pub mod swip;
pub mod tree;
