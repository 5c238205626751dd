//! eD2k identifiers: the size of a byte stream together with a 128-bit digest
//! that MD4 gives over the stream's blocks of 9,728,000 bytes, and the link
//! text that names a file by them.
//!
//! [`Ed2kHasher`] takes a stream piece by piece and gives its digest, by the
//! current scheme or the legacy one; [`blocks::ed2k_digest`] says what that
//! digest is. [`Ed2k`] holds the identifier of a file and writes its link.
//! [`Reorder`] puts the results of jobs that ran side by side back in order.

pub mod accumulator;
pub mod blocks;
pub mod hash;
pub mod link;
pub mod pipeline;

pub use hash::Ed2kHasher;
pub use link::{Ed2k, Ed2kLegacy};
pub use pipeline::{worker_count, Reorder};
