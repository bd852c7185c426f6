//! Page-based storage structures: page identifiers and frame headers, a hybrid
//! optimistic latch, a copy-on-write B-epsilon tree with its page format, and a
//! B-link tree.
pub mod betree;
pub mod btree;
pub mod bytes;
pub mod calls;
pub mod frame;
pub mod frame_laws;
pub mod latch;
pub mod latch_laws;
pub mod latch_version;
pub mod latch_wait_laws;
pub mod latch_waits;
pub mod metrics_stub;
pub mod page_id;
mod tag_cell;
