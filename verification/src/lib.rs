//! Signature-based file differencing in the style of rsync.
//!
//! A reference buffer is cut into fixed-size chunks, and each chunk is indexed
//! by a cheap rolling checksum and confirmed by a strong digest. A modified
//! buffer is then scanned against that index and described as a sequence of
//! chunk matches and literal byte runs.
pub mod chunks;
pub mod delta;
pub mod replay;
pub mod rolling_sum;
pub mod signature;

pub use delta::{generate_delta, Operation};
pub use rolling_sum::{chunk_rollsum, RollingSum};
pub use signature::{chunk_strong_hash, generate_signature, ChunkHash, FileSignature};

