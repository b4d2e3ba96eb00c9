//! Proof-of-storage challenges over content-addressed archives.
//!
//! An archive ("dat") is described by a binary merkle tree whose nodes are
//! addressed by a single flat index. Seeders claim to replicate archives; a
//! scheduler picks one of them each round, names a chunk of one of their
//! archives and expects an inclusion proof before a deadline.
//!
//! * [`primitives`]: digests, keys, signatures, account identities.
//! * [`flat_tree`]: the arithmetic of flat-tree indices.
//! * [`node`]: tree nodes and the index operations on them.
//! * [`encoding`]: integers as bytes.
//! * [`crypto`]: the digest and the signature check.
//! * [`payload`]: the hashed payloads and their canonical bytes.
//! * [`error`]: the errors of the operations.
//! * [`inclusion`]: inclusion proofs and their verification.
//! * [`registry`]: the table of registered archives.
//! * [`seeders`]: the seeders and what they pin.
//! * [`scheduler`]: the registries and the state machine of the challenges.

pub mod primitives;
pub mod flat_tree;
pub mod node;
pub mod encoding;
pub mod crypto;
pub mod payload;
pub mod error;
pub mod inclusion;
pub mod registry;
pub mod seeders;
pub mod scheduler;
