//! End-to-end engine tests: backup, dedup, restore, diff, prune,
//! exclusion, and the display helpers.

use butnext::backup::{backup_target, format_size, is_excluded, prune_snapshots, SourceFile};
use butnext::config::{validate_config, BackupTarget, CompressionKind, Config, Settings};
use butnext::error::{ConfigError, RestoreError};
use butnext::manifest::{Repository, Snapshot, Timestamp};
use butnext::restore::{diff_snapshots, restore_snapshot, RestoreOptions};

fn settings(compression: CompressionKind, encrypt: bool) -> Settings {
    Settings {
        interval: 300,
        filename: "%name%-%date%-%time%".to_string(),
        compression,
        zstd_level: 3,
        encrypt,
        max_snapshots: 0,
        repo_path: ".but".to_string(),
    }
}

fn target(exclude: Vec<&str>) -> BackupTarget {
    BackupTarget {
        from: "/home/user/data".to_string(),
        dest: "./".to_string(),
        compression: None,
        exclude: exclude.into_iter().map(|s| s.to_string()).collect(),
    }
}

fn file(path: &str, content: &[u8]) -> SourceFile {
    SourceFile {
        path: path.to_string(),
        content: content.to_vec(),
        permissions: Some(0o644),
        modified: 1_700_000_000,
    }
}

fn ts(second: u32) -> Timestamp {
    Timestamp { year: 2024, month: 1, day: 1, hour: 12, minute: 0, second }
}

fn opts(password: Option<&str>, verify: bool) -> RestoreOptions {
    RestoreOptions {
        target_dir: "restored".to_string(),
        password: password.map(|p| p.to_string()),
        force: false,
        verify,
        filter: None,
        verbose: false,
    }
}

#[test]
fn dedup_two_identical_files() {
    // tree { "a.txt": "hello", "sub/b.txt": "hello" }, no compression,
    // no encryption: one blob, second entry deduplicated
    let mut repo = Repository::new();
    let files = vec![file("a.txt", b"hello"), file("sub/b.txt", b"hello")];
    let snap = backup_target(
        &settings(CompressionKind::NoCompression, false),
        "docs",
        &target(vec![]),
        None,
        files,
        ts(0),
        5,
        &mut repo,
    )
    .unwrap();
    assert_eq!(repo.blob_count(), 1);
    assert_eq!(snap.stats.total_files, 2);
    assert_eq!(snap.stats.new_files, 1);
    assert_eq!(snap.stats.deduplicated_blobs, 1);
    assert_eq!(snap.stats.unchanged_files, 1);
    assert_eq!(snap.stats.modified_files, 0);
    assert_eq!(snap.stats.total_size, 10);
    assert_eq!(snap.stats.stored_size, 5);
    let dedup_entry = snap
        .files
        .iter()
        .find(|(p, _)| p == "sub/b.txt")
        .map(|(_, e)| e)
        .unwrap();
    assert!(dedup_entry.deduplicated);
    assert_eq!(dedup_entry.stored_size, 0);
}

#[test]
fn zstd_backup_compresses() {
    // tree { "data.bin": 10000 zero bytes } under zstd level 3
    let mut repo = Repository::new();
    let files = vec![file("data.bin", &vec![0u8; 10000])];
    let snap = backup_target(
        &settings(CompressionKind::Zstd, false),
        "bin",
        &target(vec![]),
        None,
        files,
        ts(0),
        1,
        &mut repo,
    )
    .unwrap();
    assert!(snap.stats.stored_size < 10000);
}

#[test]
fn encrypted_backup_restores_with_right_password_only() {
    // tree { "secret": "top-secret" } encrypted under "pw1"
    let mut repo = Repository::new();
    let files = vec![file("secret", b"top-secret")];
    let snap = backup_target(
        &settings(CompressionKind::NoCompression, true),
        "vault",
        &target(vec![]),
        Some("pw1"),
        files,
        ts(0),
        1,
        &mut repo,
    )
    .unwrap();
    assert!(snap.encrypted);

    // the stored blob does not contain the plaintext
    assert_eq!(repo.blobs.len(), 1);
    let stored = &repo.blobs[0].1;
    let needle = b"top-secret";
    assert!(!stored.windows(needle.len()).any(|w| w == needle));

    // right password restores the content
    let (out, stats) = restore_snapshot(&repo, &snap, &opts(Some("pw1"), true)).unwrap();
    assert_eq!(out.len(), 1);
    assert_eq!(out[0].path, "secret");
    assert_eq!(out[0].content, b"top-secret");
    assert_eq!(stats.files_restored, 1);
    assert_eq!(stats.bytes_restored, 10);

    // wrong password fails with a decryption error
    let r = restore_snapshot(&repo, &snap, &opts(Some("pw2"), true));
    assert!(matches!(r, Err(RestoreError::DecryptionFailed)));

    // no password at all is rejected
    let r = restore_snapshot(&repo, &snap, &opts(None, true));
    assert!(matches!(r, Err(RestoreError::PasswordRequired)));
}

#[test]
fn restore_round_trip_plain() {
    let mut repo = Repository::new();
    let files = vec![
        file("a.txt", b"alpha"),
        file("b/c.txt", b"gamma"),
        file("b/d.txt", b"delta"),
    ];
    let snap = backup_target(
        &settings(CompressionKind::Zstd, false),
        "tree",
        &target(vec![]),
        None,
        files,
        ts(0),
        1,
        &mut repo,
    )
    .unwrap();
    let (out, stats) = restore_snapshot(&repo, &snap, &opts(None, true)).unwrap();
    assert_eq!(stats.files_restored, 3);
    let mut paths: Vec<&str> = out.iter().map(|f| f.path.as_str()).collect();
    paths.sort();
    assert_eq!(paths, vec!["a.txt", "b/c.txt", "b/d.txt"]);
    for f in &out {
        match f.path.as_str() {
            "a.txt" => assert_eq!(f.content, b"alpha"),
            "b/c.txt" => assert_eq!(f.content, b"gamma"),
            "b/d.txt" => assert_eq!(f.content, b"delta"),
            other => panic!("unexpected path {other}"),
        }
        assert_eq!(f.permissions, Some(0o644));
    }
}

#[test]
fn restore_filter_selects_subset() {
    let mut repo = Repository::new();
    let files = vec![file("src/main.rs", b"fn"), file("doc/readme", b"text")];
    let snap = backup_target(
        &settings(CompressionKind::NoCompression, false),
        "proj",
        &target(vec![]),
        None,
        files,
        ts(0),
        1,
        &mut repo,
    )
    .unwrap();
    let mut o = opts(None, true);
    o.filter = Some(vec!["src".to_string()]);
    let (out, _) = restore_snapshot(&repo, &snap, &o).unwrap();
    assert_eq!(out.len(), 1);
    assert_eq!(out[0].path, "src/main.rs");
}

#[test]
fn diff_detects_change_and_is_empty_for_identical_trees() {
    // two snapshots of the same tree, one second apart
    let mut repo = Repository::new();
    let s = settings(CompressionKind::NoCompression, false);
    let t = target(vec![]);
    let tree = || vec![file("a.txt", b"one"), file("b.txt", b"two")];
    let snap1 = backup_target(&s, "t", &t, None, tree(), ts(0), 1, &mut repo).unwrap();
    let snap2 = backup_target(&s, "t", &t, None, tree(), ts(1), 1, &mut repo).unwrap();
    let d = diff_snapshots(&snap1, &snap2);
    assert!(d.added.is_empty());
    assert!(d.modified.is_empty());
    assert!(d.removed.is_empty());
    assert!(!d.has_changes());

    // modify one file's content and take a third snapshot
    let changed = vec![file("a.txt", b"one!"), file("b.txt", b"two")];
    let snap3 = backup_target(&s, "t", &t, None, changed, ts(2), 1, &mut repo).unwrap();
    let d = diff_snapshots(&snap2, &snap3);
    assert_eq!(d.modified, vec!["a.txt".to_string()]);
    assert!(d.added.is_empty());
    assert!(d.removed.is_empty());
    assert_eq!(d.modified_size_delta, 1);
    assert!(d.has_changes());
}

#[test]
fn diff_symmetry_on_concrete_snapshots() {
    let mut repo = Repository::new();
    let s = settings(CompressionKind::NoCompression, false);
    let t = target(vec![]);
    let a = vec![file("common", b"same"), file("gone", b"old"), file("mod", b"v1")];
    let b = vec![file("common", b"same"), file("new", b"fresh"), file("mod", b"v2")];
    let snap_a = backup_target(&s, "t", &t, None, a, ts(0), 1, &mut repo).unwrap();
    let snap_b = backup_target(&s, "t", &t, None, b, ts(1), 1, &mut repo).unwrap();
    let d_ab = diff_snapshots(&snap_a, &snap_b);
    let d_ba = diff_snapshots(&snap_b, &snap_a);
    assert_eq!(d_ab.added, d_ba.removed);
    assert_eq!(d_ba.added, d_ab.removed);
    assert_eq!(d_ab.modified, d_ba.modified);
    assert_eq!(d_ab.added, vec!["new".to_string()]);
    assert_eq!(d_ab.removed, vec!["gone".to_string()]);
    assert_eq!(d_ab.modified, vec!["mod".to_string()]);
}

#[test]
fn tampered_blob_fails_verified_restore() {
    let mut repo = Repository::new();
    let files = vec![file("doc", b"original contents")];
    let snap = backup_target(
        &settings(CompressionKind::NoCompression, false),
        "t",
        &target(vec![]),
        None,
        files,
        ts(0),
        1,
        &mut repo,
    )
    .unwrap();
    // tamper with the stored blob after commit
    repo.blobs[0].1[0] ^= 0xff;
    let r = restore_snapshot(&repo, &snap, &opts(None, true));
    assert!(matches!(r, Err(RestoreError::IntegrityFailure { .. })));
}

#[test]
fn missing_blob_aborts_restore() {
    let mut repo = Repository::new();
    let files = vec![file("doc", b"payload")];
    let snap = backup_target(
        &settings(CompressionKind::NoCompression, false),
        "t",
        &target(vec![]),
        None,
        files,
        ts(0),
        1,
        &mut repo,
    )
    .unwrap();
    repo.blobs.clear();
    let r = restore_snapshot(&repo, &snap, &opts(None, false));
    assert!(matches!(r, Err(RestoreError::BlobMissing { .. })));
    let missing = butnext::manifest::missing_blob_paths(&repo, &snap);
    assert_eq!(missing, vec!["doc".to_string()]);
}

#[test]
fn prune_keeps_most_recent_and_survivors_restore() {
    // six snapshots of one target at distinct timestamps; prune to 3
    let mut repo = Repository::new();
    let s = settings(CompressionKind::NoCompression, false);
    let t = target(vec![]);
    let mut ids = Vec::new();
    for sec in 0..6u32 {
        let content = format!("content {sec}");
        let files = vec![file("data.txt", content.as_bytes())];
        let snap = backup_target(&s, "tgt", &t, None, files, ts(sec), 1, &mut repo).unwrap();
        ids.push(snap.id.clone());
    }
    let (deleted, _freed) = prune_snapshots(&mut repo, "tgt", 3);
    assert_eq!(deleted, 3);
    let remaining = repo.list_snapshots_for_target("tgt");
    assert_eq!(remaining.len(), 3);
    let remaining_ids: Vec<String> = remaining.iter().map(|s| s.id.clone()).collect();
    assert_eq!(remaining_ids, vec![ids[3].clone(), ids[4].clone(), ids[5].clone()]);
    // every surviving snapshot still restores successfully
    for snap in &remaining {
        let (out, _) = restore_snapshot(&repo, snap, &opts(None, true)).unwrap();
        assert_eq!(out.len(), 1);
    }
    // pruning below the count changes nothing
    let (deleted, freed) = prune_snapshots(&mut repo, "tgt", 5);
    assert_eq!((deleted, freed), (0, 0));
}

#[test]
fn prune_spares_blobs_shared_with_other_targets() {
    let mut repo = Repository::new();
    let s = settings(CompressionKind::NoCompression, false);
    let t = target(vec![]);
    // the same content appears in another target's snapshot
    let snap_keep = backup_target(
        &s,
        "other",
        &t,
        None,
        vec![file("shared", b"shared bytes")],
        ts(10),
        1,
        &mut repo,
    )
    .unwrap();
    for sec in 0..2u32 {
        let files = vec![file("shared", b"shared bytes")];
        backup_target(&s, "tgt", &t, None, files, ts(sec), 1, &mut repo).unwrap();
    }
    let (deleted, freed) = prune_snapshots(&mut repo, "tgt", 0);
    assert_eq!(deleted, 2);
    assert_eq!(freed, 0); // the blob is still referenced by the other target
    let (out, _) = restore_snapshot(&repo, &snap_keep, &opts(None, true)).unwrap();
    assert_eq!(out[0].content, b"shared bytes");
}

#[test]
fn exclusion_patterns_filter_the_walk() {
    // patterns ["*.tmp", "node_modules/", ".git"] over a mixed tree
    let mut repo = Repository::new();
    let mut t = target(vec!["*.tmp", "node_modules/", ".git"]);
    t.compression = Some(CompressionKind::NoCompression);
    let files = vec![
        file("a.txt", b"keep"),
        file("b.tmp", b"drop"),
        file("node_modules/x", b"drop"),
        file(".git/HEAD", b"drop"),
        file("src/main", b"keep"),
    ];
    let snap = backup_target(
        &settings(CompressionKind::Zstd, false),
        "t",
        &t,
        None,
        files,
        ts(0),
        1,
        &mut repo,
    )
    .unwrap();
    let paths: Vec<&str> = snap.files.iter().map(|(p, _)| p.as_str()).collect();
    assert_eq!(paths, vec!["a.txt", "src/main"]);
    // the per-target compression override was honored
    assert_eq!(snap.compression, CompressionKind::NoCompression);
}

#[test]
fn exclusion_matching_rules() {
    let pats = |v: &[&str]| v.iter().map(|s| s.to_string()).collect::<Vec<String>>();
    assert!(is_excluded("b.tmp", &pats(&["*.tmp"])));
    assert!(is_excluded("deep/dir/b.tmp", &pats(&["*.tmp"])));
    assert!(!is_excluded("b.tmpx", &pats(&["*.tmp"])));
    assert!(is_excluded("node_modules/x", &pats(&["node_modules/"])));
    assert!(is_excluded("a/node_modules/x", &pats(&["node_modules/"])));
    assert!(!is_excluded("node_modules_fake/x", &pats(&["node_modules/"])));
    assert!(is_excluded("src/generated_file", &pats(&["src/*"])));
    assert!(!is_excluded("other/file", &pats(&["src/*"])));
    assert!(!is_excluded("anything", &pats(&[])));
}

#[test]
fn snapshot_id_format() {
    let stamp = Timestamp { year: 2024, month: 1, day: 1, hour: 12, minute: 0, second: 0 };
    assert_eq!(
        Snapshot::generate_id(&stamp, "documents"),
        "20240101-120000-documents"
    );
    let stamp = Timestamp { year: 2023, month: 11, day: 30, hour: 9, minute: 5, second: 59 };
    assert_eq!(Snapshot::generate_id(&stamp, "x"), "20231130-090559-x");
}

#[test]
fn find_snapshot_prefix_rules() {
    let mut repo = Repository::new();
    let s = settings(CompressionKind::NoCompression, false);
    let t = target(vec![]);
    let snap1 =
        backup_target(&s, "aa", &t, None, vec![file("f", b"1")], ts(0), 1, &mut repo).unwrap();
    backup_target(&s, "ab", &t, None, vec![file("f", b"2")], ts(1), 1, &mut repo).unwrap();
    // the exact identifier is a valid prefix of itself
    let found = repo.find_snapshot(&snap1.id).unwrap().unwrap();
    assert_eq!(found.id, snap1.id);
    // no match
    assert!(repo.find_snapshot("zzz").unwrap().is_none());
    // ambiguous prefix: both identifiers start with the date
    assert!(repo.find_snapshot("20240101").is_err());
}

#[test]
fn format_size_values() {
    assert_eq!(format_size(0), "0.0 B");
    assert_eq!(format_size(512), "512.0 B");
    assert_eq!(format_size(1024), "1.0 KiB");
    assert_eq!(format_size(1536), "1.5 KiB");
    assert_eq!(format_size(1024 * 1024), "1.0 MiB");
    assert_eq!(format_size(5 * 1024 * 1024 * 1024), "5.0 GiB");
}

#[test]
fn config_validation_rules() {
    let good = Config {
        settings: settings(CompressionKind::Zstd, false),
        backup: vec![("docs".to_string(), target(vec![]))],
    };
    assert!(validate_config(&good).is_ok());

    let mut no_targets = good.clone();
    no_targets.backup.clear();
    assert!(matches!(
        validate_config(&no_targets),
        Err(ConfigError::Validation { .. })
    ));

    let mut bad_level = good.clone();
    bad_level.settings.zstd_level = 23;
    match validate_config(&bad_level) {
        Err(ConfigError::Validation { message }) => {
            assert_eq!(message, "zstd_level must be between 1 and 22, got 23");
        }
        other => panic!("expected a validation error, got {other:?}"),
    }

    let mut zero_interval = good.clone();
    zero_interval.settings.interval = 0;
    match validate_config(&zero_interval) {
        Err(ConfigError::Validation { message }) => {
            assert_eq!(message, "interval must be greater than 0");
        }
        other => panic!("expected a validation error, got {other:?}"),
    }

    let mut empty_from = good;
    empty_from.backup[0].1.from = String::new();
    match validate_config(&empty_from) {
        Err(ConfigError::Validation { message }) => {
            assert_eq!(message, "backup target 'docs' has empty 'from' path");
        }
        other => panic!("expected a validation error, got {other:?}"),
    }
}

#[test]
fn backup_never_rewrites_existing_blobs() {
    // first snapshot stores under no compression; a later zstd snapshot of
    // the same content must not change the stored bytes
    let mut repo = Repository::new();
    let t = target(vec![]);
    backup_target(
        &settings(CompressionKind::NoCompression, false),
        "a",
        &t,
        None,
        vec![file("f", b"stable bytes")],
        ts(0),
        1,
        &mut repo,
    )
    .unwrap();
    let before = repo.blobs[0].1.clone();
    backup_target(
        &settings(CompressionKind::Zstd, false),
        "b",
        &t,
        None,
        vec![file("f", b"stable bytes")],
        ts(1),
        1,
        &mut repo,
    )
    .unwrap();
    assert_eq!(repo.blob_count(), 1);
    assert_eq!(repo.blobs[0].1, before);
}

#[test]
fn blob_path_sharding() {
    let p = butnext::manifest::blob_path("/repo", "a1b2c3");
    assert_eq!(p, "/repo/blobs/a1/b2c3");
}
