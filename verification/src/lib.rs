//! Certified content-addressed asset library.
//!
//! Maintains an ordered, deterministic hash tree from resource paths to
//! 32-byte content hashes, produces compact witnesses that let a client
//! recompute the root hash for any single path, and assembles certified
//! responses for a fixed `/`, `/{id}`, `/{id}/{part}` resource hierarchy.

pub mod bytes;
pub mod codec;
pub mod hashes;
pub mod protocol;
pub mod registry;
pub mod resolver;
pub mod text;
pub mod tree;
