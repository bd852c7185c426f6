//! A copy-on-write B-epsilon tree: versioned messages, the page format, and the
//! tree over a page store.
pub mod append;
pub mod append_laws;
pub mod batch;
pub mod calm;
pub mod carry;
pub mod compact;
pub mod compact_laws;
pub mod config;
pub mod count_laws;
pub mod course;
pub mod drain;
pub mod error_text;
pub mod flush;
pub mod gc;
pub mod gc_laws;
pub mod gc_tree;
pub mod laws;
pub mod layout;
pub mod layout_laws;
pub mod leaf_append;
pub mod leaf_work;
pub mod local;
pub mod lookup;
pub mod message;
pub mod node;
pub mod pass_laws;
pub mod pool;
pub mod read;
pub mod reader;
pub mod reclaim;
pub mod rewrite;
pub mod root;
pub mod scan;
pub mod scan_laws;
pub mod shape;
pub mod smaller;
pub mod split;
pub mod takes;
pub mod tree;
pub mod walk;
pub mod work;
pub mod writer;
