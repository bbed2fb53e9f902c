//! A tamper-evident, append-only store of fixed-size blocks.
//!
//! Every block begins with the SHA-256 digest of the block before it, so the
//! blocks form a hash chain. This crate holds the parts of the store that
//! compute: the digest engine, the codecs of digests and records, and the
//! rules on block sizes, offsets, appends and chain validation. Reading and
//! writing the file itself is left to the caller, who hands the bytes in.

pub mod block;
pub mod chain;
pub mod codec;
pub mod digest;
pub mod error;
pub mod sha256;
pub mod tip;

pub use block::{Block, BLOCK_SIZE};
pub use chain::Layout;
pub use codec::{Deserialize, Serialize};
pub use digest::{digest, Digest, DIGEST_SIZE};
pub use error::Error;
pub use tip::ChainTip;
