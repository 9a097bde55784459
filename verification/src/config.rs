//! Configuration model.
//!
//! The configuration file format and its search path live outside the core;
//! this module holds the validated values the core consumes: global settings,
//! backup targets, and the closed set of compression kinds, together with the
//! validation rules applied after parsing.

use vstd::prelude::*;

verus! {

use vstd::string::*;
use crate::error::ConfigError;
use crate::strutil;

/// Supported compression backends.
#[derive(Debug, Clone, Copy, PartialEq, Eq, Structural)]
pub enum CompressionKind {
    Zstd,
    Gzip,
    NoCompression,
}

/// The lowercase name of a compression kind, as serialized in manifests.
pub open spec fn kind_name(k: CompressionKind) -> Seq<char> {
    match k {
        CompressionKind::Zstd => "zstd"@,
        CompressionKind::Gzip => "gzip"@,
        CompressionKind::NoCompression => "none"@,
    }
}

impl CompressionKind {
    /// Returns the lowercase name of this kind.
    pub fn name(&self) -> (r: &'static str)
        ensures
            r@ == kind_name(*self),
    {
        match *self {
            CompressionKind::Zstd => "zstd",
            CompressionKind::Gzip => "gzip",
            CompressionKind::NoCompression => "none",
        }
    }
}

/// Global settings controlling backup behavior.
#[derive(Debug, Clone)]
pub struct Settings {
    /// Interval between backup cycles in seconds (used in watch mode).
    pub interval: u64,
    /// Filename template for archive names.
    pub filename: String,
    /// Default compression algorithm.
    pub compression: CompressionKind,
    /// Zstd compression level, valid between 1 and 22.
    pub zstd_level: i32,
    /// Whether to encrypt blobs; takes effect only when a password is given.
    pub encrypt: bool,
    /// Maximum number of snapshots to retain per target (0 = unlimited).
    pub max_snapshots: usize,
    /// Repository root directory for content-addressable blob storage.
    pub repo_path: String,
}

/// A single backup target mapping a source directory to a destination.
#[derive(Debug, Clone)]
pub struct BackupTarget {
    /// Source directory to back up.
    pub from: String,
    /// Destination directory for archives (used in archive mode).
    pub dest: String,
    /// Optional per-target compression override.
    pub compression: Option<CompressionKind>,
    /// Patterns excluding paths from backup.
    pub exclude: Vec<String>,
}

/// Top-level configuration: settings plus named backup targets.
#[derive(Debug, Clone)]
pub struct Config {
    pub settings: Settings,
    pub backup: Vec<(String, BackupTarget)>,
}

/// All validation rules on a parsed configuration.
pub open spec fn config_valid(c: Config) -> bool {
    &&& c.backup@.len() > 0
    &&& c.settings.interval > 0
    &&& 1 <= c.settings.zstd_level <= 22
    &&& forall|i: int| 0 <= i < c.backup@.len() ==> (#[trigger] c.backup@[i]).1.from@.len() > 0
}

/// Validates configuration invariants after parsing.
///
/// Succeeds exactly on valid configurations; on failure, reports the first
/// violated rule, in the order: no targets, zero interval, zstd level out of
/// range, a target with an empty source path.
pub fn validate_config(config: &Config) -> (r: Result<(), ConfigError>)
    ensures
        r is Ok <==> config_valid(*config),
        config.backup@.len() == 0 ==> (r matches Err(ConfigError::Validation { message })
            && message@ == "at least one [backup.*] target must be defined"@),
        config.backup@.len() > 0 && config.settings.interval == 0 ==> (r matches Err(
            ConfigError::Validation { message },
        ) && message@ == "interval must be greater than 0"@),
        config.backup@.len() > 0 && config.settings.interval > 0 && !(1
            <= config.settings.zstd_level <= 22) ==> (r matches Err(
            ConfigError::Validation { message },
        ) && message@ == "zstd_level must be between 1 and 22, got "@ + strutil::int_dec_str(
            config.settings.zstd_level as int,
        )),
        config.backup@.len() > 0 && config.settings.interval > 0 && 1 <= config.settings.zstd_level
            <= 22 && !config_valid(*config) ==> (r matches Err(ConfigError::Validation { message })
            && exists|i: int|
            {
                &&& 0 <= i < config.backup@.len()
                &&& (#[trigger] config.backup@[i]).1.from@.len() == 0
                &&& (forall|j: int|
                    0 <= j < i ==> (#[trigger] config.backup@[j]).1.from@.len() > 0)
                &&& message@ == "backup target '"@ + config.backup@[i].0@
                    + "' has empty 'from' path"@
            }),
{
    if config.backup.len() == 0 {
        return Err(
            ConfigError::Validation {
                message: "at least one [backup.*] target must be defined".to_owned(),
            },
        );
    }
    if config.settings.interval == 0 {
        return Err(
            ConfigError::Validation { message: "interval must be greater than 0".to_owned() },
        );
    }
    if config.settings.zstd_level < 1 || config.settings.zstd_level > 22 {
        let mut message = "zstd_level must be between 1 and 22, got ".to_owned();
        let digits = strutil::i32_to_dec(config.settings.zstd_level);
        message.append(digits.as_str());
        return Err(ConfigError::Validation { message });
    }
    let n = config.backup.len();
    let mut i: usize = 0;
    while i < n
        invariant
            0 <= i <= n,
            n == config.backup@.len(),
            n > 0,
            config.settings.interval > 0,
            1 <= config.settings.zstd_level <= 22,
            forall|j: int| 0 <= j < i ==> (#[trigger] config.backup@[j]).1.from@.len() > 0,
        decreases n - i,
    {
        let target_from: &String = &config.backup[i].1.from;
        if target_from.as_str().unicode_len() == 0 {
            let mut message = "backup target '".to_owned();
            message.append(config.backup[i].0.as_str());
            message.append("' has empty 'from' path");
            return Err(ConfigError::Validation { message });
        }
        i = i + 1;
    }
    Ok(())
}

} // verus!
