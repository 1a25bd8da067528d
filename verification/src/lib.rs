//! A slab-based store of immutable memos: slabs number and hold memos, memo references
//! track residency and peers, heads hold the newest memos of a subject, and query contexts
//! keep a stash of subject heads that they can compact and hand to other contexts.  Walks
//! of a lineage name the first memo they cannot read, so that the caller can retrieve it
//! from a peer, install it, and walk again.
pub mod types;
pub mod slabref;
pub mod memo;
pub mod memoref;
pub mod memorefhead;
pub mod slab;
pub mod stash;
pub mod network;
pub mod lineage;
pub mod context;
pub mod laws;

pub use network::Network;
pub use slab::Slab;
pub use memo::Memo;
