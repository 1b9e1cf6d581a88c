//! Data-plane core of a stateless state-transition engine: wide tree-index
//! arithmetic, overflow-checked account-field access against a partial Merkle
//! tree, and witness compression for the transition payload.
pub mod blob;
pub mod encoding;
pub mod error;
pub mod offsets;
pub mod state;
pub mod u264;
