//! Error types of the backup engine.
//!
//! Each variant carries enough context for meaningful diagnostics without
//! exposing implementation details.  Paths and hashes are carried as plain
//! strings.

use vstd::prelude::*;

verus! {

/// Configuration loading and validation errors.
#[derive(Debug, Clone)]
pub enum ConfigError {
    /// No configuration file was found at any searched path.
    NotFound { searched: Vec<String> },
    /// The configuration file could not be parsed.
    Parse { message: String },
    /// The configuration violates a validity rule.
    Validation { message: String },
    /// A backup target references a source directory that does not exist.
    MissingSource { name: String, path: String },
}

/// Errors during the backup process.
#[derive(Debug, Clone)]
pub enum BackupError {
    /// The source directory does not exist.
    SourceNotFound(String),
    /// The destination directory is not writable.
    DestinationNotWritable(String),
    /// Hashing a file failed.
    HashFailed { path: String },
    /// Compressing a file failed.
    CompressionFailed { path: String },
    /// Encrypting a file failed.
    EncryptionFailed { path: String },
    /// The snapshot manifest could not be written.
    ManifestWrite,
    /// No changes were detected since the last snapshot.
    NothingChanged,
}

/// Errors during restoration.
#[derive(Debug, Clone)]
pub enum RestoreError {
    /// No snapshot matches the given identifier.
    SnapshotNotFound(String),
    /// A referenced blob is missing from the repository.
    BlobMissing { hash: String },
    /// A restored file's hash does not match its manifest entry.
    IntegrityFailure { path: String, expected: String, actual: String },
    /// The restore target directory exists, is not empty, and overwriting
    /// was not requested.
    TargetExists(String),
    /// A stored blob could not be decompressed.
    DecompressionFailed,
    /// The snapshot is encrypted but no password was supplied.
    PasswordRequired,
    /// A stored blob could not be decrypted (corruption or wrong password).
    DecryptionFailed,
}

/// Repository structure errors.
#[derive(Debug, Clone)]
pub enum RepoError {
    /// The repository directory has not been initialized.
    NotInitialized(String),
    /// The repository already exists.
    AlreadyExists(String),
    /// The repository contents are corrupted.
    Corrupted { message: String },
    /// A lock file exists; another instance may be running.
    Locked(String),
    /// A snapshot identifier prefix matches more than one snapshot.
    AmbiguousPrefix { count: usize },
}

/// Cryptographic operation errors.
#[derive(Debug, Clone, Copy, PartialEq, Eq, Structural)]
pub enum CryptoError {
    /// The derived encryption key has the wrong length.
    InvalidKeyLength,
    /// Authentication failed: the data is corrupted or the password wrong.
    DecryptionFailed,
    /// Key derivation failed.
    KeyDerivation,
}

/// Errors of the per-blob storage pipeline.
#[derive(Debug, Clone, Copy, PartialEq, Eq, Structural)]
pub enum PipelineError {
    /// The compression backend reported a failure.
    Compression,
    /// The encryption backend reported a failure.
    Encryption,
}

/// Compression and decompression errors.
#[derive(Debug, Clone, Copy, PartialEq, Eq, Structural)]
pub enum CodecError {
    /// The compressor reported a failure.
    CompressionFailed,
    /// The input is not a valid compressed stream.
    DecompressionFailed,
}

} // verus!
