//! Blocks and their transaction batches: the intra-batch conflict check and
//! the binary encoding of batches and blocks, each stated against a
//! mathematical model and proved.
pub mod block;
pub mod codec;
pub mod transaction;
pub mod transactions;
