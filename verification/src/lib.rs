//! SeaHash: a fast, non-cryptographic 64-bit hash function.
//!
//! The crate offers the hash as a one-shot function over a byte buffer
//! (`buffer::hash`) and as a streaming hasher that takes its input in pieces
//! (`stream::SeaHasher`). Both are proved against one mathematical definition
//! of the digest, `buffer::spec_hash`.
pub mod buffer;
pub mod helper;
pub mod stream;

pub use buffer::hash;
pub use stream::SeaHasher;
