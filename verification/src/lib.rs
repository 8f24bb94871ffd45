//! Reconciliation core for tree-shaped document snapshots.
//!
//! The crate computes the set of structural and content changes between two
//! snapshots of a document tree, and separately replays a stream of low-level
//! mutation notifications into a normalized sequence of edit operations.
//! The tree model, the fingerprint function, the tree-diff computer and the
//! mutation translator are all verified; their contracts are stated over
//! mathematical views of the data types.

pub mod diff;
pub mod dom;
pub mod memory;
pub mod monitoring;
pub mod pool;
pub mod text;

pub use dom::DomNode;
pub use dom::DomTree;
pub use memory::MemoryMonitor;
pub use pool::ObjectPool;
