//! Document-store skip index and position stream codec.
//!
//! - `varint`: variable-width integers.
//! - `checkpoint`, `block`: checkpoints and the delta-coded blocks that hold them.
//! - `skip_index_builder`, `skip_index`: writing and reading the tower of layers.
//! - `tower`: what an index written for a run of checkpoints reads back as.
//! - `positions`: bit-packed position streams with long-skip acceleration.
//! - `store`: the store file around the compressed blocks and the skip index.
pub mod error;
pub mod varint;
pub mod checkpoint;
pub mod block;
pub mod skip_index_builder;
pub mod skip_index;
pub mod tower;
pub mod positions;
pub mod store;
