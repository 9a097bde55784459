//! Incremental, content-addressable backup engine.
//!
//! Files are stored in a shared blob pool keyed by their BLAKE3 content hash,
//! so identical content is stored once.  Snapshots are immutable records of a
//! directory tree at a point in time; they can be restored with integrity
//! verification, compared, and pruned under a retention policy.
//!
//! This crate holds the verified core: the repository model, the per-file
//! backup pipeline (hash, deduplicate, compress, encrypt, store), the restore
//! pipeline (read, decrypt, decompress, verify), the snapshot diff, and the
//! reference-counted prune.  Filesystem walking, persistence of the repository
//! directory, and the command-line surface live outside the core and exchange
//! plain values with it.

pub mod arith;
pub mod backup;
pub mod cipher;
pub mod codec;
pub mod config;
pub mod error;
pub mod hasher;
pub mod manifest;
pub mod pipeline;
pub mod restore;
pub mod strutil;
