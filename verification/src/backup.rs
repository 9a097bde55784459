//! Backup engine: incremental, content-addressable backup with
//! deduplication.
//!
//! For each regular file of the source tree (walked outside the core and
//! handed in as plain values), the engine computes the BLAKE3 content hash,
//! consults the blob pool, and for new content runs the storage pipeline
//! and stores the result under the hash.  Identical content, wherever it
//! appears, is stored once.  The snapshot manifest is committed only after
//! every referenced blob is in the pool, so no partial snapshot ever
//! exists.

use vstd::prelude::*;

verus! {

use vstd::string::*;
use crate::arith;
use crate::config::{BackupTarget, CompressionKind, Settings};
use crate::error::{BackupError, PipelineError};
use crate::hasher::{self, blake3_hex};
use crate::manifest::{
    add_file_stats,
    files_sorted,
    find_blob,
    find_entry,
    has_blob,
    repo_wf,
    zero_stats,
    FileEntry,
    FileEntryView,
    Repository,
    Snapshot,
    SnapshotStats,
    SnapshotView,
    Timestamp,
};
use crate::pipeline::{self, decode_pipeline, pw_view, stored_len_of};
use crate::strutil;

/// One regular file of the source tree: its source-relative path with
/// forward-slash separators, its content, and its metadata.
#[derive(Debug)]
pub struct SourceFile {
    /// Source-relative path, `/`-separated on every host.
    pub path: String,
    /// The file's bytes.
    pub content: Vec<u8>,
    /// POSIX mode bits, absent on non-POSIX hosts.
    pub permissions: Option<u32>,
    /// Last modification time as seconds since the Unix epoch, 0 if unknown.
    pub modified: u64,
}

/// The mathematical content of a [`SourceFile`].
pub ghost struct SourceFileView {
    pub path: Seq<char>,
    pub content: Seq<u8>,
    pub permissions: Option<u32>,
    pub modified: u64,
}

impl View for SourceFile {
    type V = SourceFileView;

    open spec fn view(&self) -> SourceFileView {
        SourceFileView {
            path: self.path@,
            content: self.content@,
            permissions: self.permissions,
            modified: self.modified,
        }
    }
}

/// One exclusion pattern matches a path: a pattern starting with `*`
/// matches any path with that suffix, one ending with `*` any path with
/// that prefix, and any other pattern (trailing slashes stripped) any path
/// with a `/`-separated component equal to it.
pub open spec fn pattern_matches(pattern: Seq<char>, path: Seq<char>) -> bool {
    let pat = strutil::strip_trailing(pattern, '/');
    if pat.len() > 0 && pat[0] == '*' {
        pat.drop_first().is_suffix_of(path)
    } else if pat.len() > 0 && pat.last() == '*' {
        pat.drop_last().is_prefix_of(path)
    } else {
        strutil::has_component(path, pat)
    }
}

/// A path is excluded when any pattern matches it.
pub open spec fn excluded(path: Seq<char>, patterns: Seq<Seq<char>>) -> bool {
    exists|i: int| 0 <= i < patterns.len() && pattern_matches(#[trigger] patterns[i], path)
}

/// The views of a sequence of pattern strings.
pub open spec fn pattern_views(patterns: Seq<String>) -> Seq<Seq<char>> {
    Seq::new(patterns.len(), |i: int| patterns[i]@)
}

/// Checks whether a source-relative path matches any exclusion pattern.
pub fn is_excluded(path: &str, patterns: &Vec<String>) -> (r: bool)
    ensures
        r == excluded(path@, pattern_views(patterns@)),
{
    let n = patterns.len();
    let mut i: usize = 0;
    while i < n
        invariant
            0 <= i <= n,
            n == patterns@.len(),
            forall|j: int| 0 <= j < i ==> !pattern_matches(#[trigger] pattern_views(patterns@)[j], path@),
        decreases n - i,
    {
        let pat = strutil::strip_trailing_slashes(patterns[i].as_str());
        let plen = pat.unicode_len();
        let matched: bool = if plen > 0 && pat.get_char(0) == '*' {
            let suffix = pat.substring_char(1, plen);
            proof {
                assert(suffix@ =~= strutil::strip_trailing(patterns@[i as int]@, '/').drop_first());
            }
            strutil::str_ends_with(path, suffix)
        } else if plen > 0 && pat.get_char(plen - 1) == '*' {
            let prefix = pat.substring_char(0, plen - 1);
            proof {
                assert(prefix@ =~= strutil::strip_trailing(patterns@[i as int]@, '/').drop_last());
            }
            strutil::str_starts_with(path, prefix)
        } else {
            strutil::str_has_component(path, pat)
        };
        if matched {
            proof {
                assert(pattern_matches(pattern_views(patterns@)[i as int], path@));
            }
            return true;
        }
        i = i + 1;
    }
    false
}

/// The blob keys present after processing `files` starting from `keys`:
/// each file's content hash joins the set.
pub open spec fn keys_after(files: Seq<SourceFileView>, keys: Set<Seq<char>>) -> Set<Seq<char>>
    decreases files.len(),
{
    if files.len() == 0 {
        keys
    } else {
        keys_after(files.drop_first(), keys.insert(blake3_hex(files[0].content)))
    }
}

/// The manifest entry recorded for a file: hash of the plaintext, plaintext
/// size, stored size (0 when the blob was already present), metadata, and
/// the deduplication flag.
pub open spec fn entry_model(
    f: SourceFileView,
    dedup: bool,
    comp: CompressionKind,
    level: int,
    enc: bool,
) -> FileEntryView {
    FileEntryView {
        hash: blake3_hex(f.content),
        size: f.content.len() as u64,
        stored_size: if dedup {
            0u64
        } else {
            stored_len_of(f.content, comp, level, enc) as u64
        },
        permissions: f.permissions,
        modified: f.modified,
        deduplicated: dedup,
    }
}

/// Whether the file at position `i` of `kept` is deduplicated: its hash is
/// already present after processing the files before it.
pub open spec fn dedup_at(
    kept: Seq<SourceFileView>,
    i: int,
    keys0: Set<Seq<char>>,
) -> bool {
    keys_after(kept.take(i), keys0).contains(blake3_hex(kept[i].content))
}

/// The statistics accumulated over `files` starting from `acc`.
pub open spec fn backup_stats(
    files: Seq<SourceFileView>,
    keys: Set<Seq<char>>,
    comp: CompressionKind,
    level: int,
    enc: bool,
    acc: SnapshotStats,
) -> SnapshotStats
    decreases files.len(),
{
    if files.len() == 0 {
        acc
    } else {
        let h = blake3_hex(files[0].content);
        backup_stats(
            files.drop_first(),
            keys.insert(h),
            comp,
            level,
            enc,
            add_file_stats(acc, entry_model(files[0], keys.contains(h), comp, level, enc)),
        )
    }
}

/// Processing one more file at the end extends the key set by its hash.
proof fn lemma_keys_after_push(files: Seq<SourceFileView>, f: SourceFileView, keys: Set<Seq<char>>)
    ensures
        keys_after(files.push(f), keys) == keys_after(files, keys).insert(blake3_hex(f.content)),
    decreases files.len(),
{
    if files.len() == 0 {
        assert(files.push(f).drop_first() =~= Seq::<SourceFileView>::empty());
        assert(keys_after(Seq::<SourceFileView>::empty(), keys.insert(blake3_hex(f.content)))
            == keys.insert(blake3_hex(f.content)));
    } else {
        assert(files.push(f)[0] == files[0]);
        assert(files.push(f).drop_first() =~= files.drop_first().push(f));
        lemma_keys_after_push(files.drop_first(), f, keys.insert(blake3_hex(files[0].content)));
    }
}

/// The key set after processing holds every starting key and every
/// processed file's hash.
proof fn lemma_keys_after_covers(files: Seq<SourceFileView>, keys: Set<Seq<char>>)
    ensures
        forall|q: Seq<char>| keys.contains(q) ==> #[trigger] keys_after(files, keys).contains(q),
        forall|i: int|
            0 <= i < files.len() ==> keys_after(files, keys).contains(
                blake3_hex((#[trigger] files[i]).content),
            ),
    decreases files.len(),
{
    if files.len() > 0 {
        assert(keys_after(files, keys) == keys_after(
            files.drop_first(),
            keys.insert(blake3_hex(files[0].content)),
        ));
        lemma_keys_after_covers(
            files.drop_first(),
            keys.insert(blake3_hex(files[0].content)),
        );
        assert forall|q: Seq<char>| keys.contains(q) implies #[trigger] keys_after(
            files,
            keys,
        ).contains(q) by {
            assert(keys.insert(blake3_hex(files[0].content)).contains(q));
        }
        assert forall|i: int|
            0 <= i < files.len() implies keys_after(files, keys).contains(
            blake3_hex((#[trigger] files[i]).content),
        ) by {
            if i > 0 {
                assert(files.drop_first()[i - 1] == files[i]);
            }
        }
    }
}

/// Accumulating one more file at the end folds its entry into the totals.
proof fn lemma_backup_stats_push(
    files: Seq<SourceFileView>,
    f: SourceFileView,
    keys: Set<Seq<char>>,
    comp: CompressionKind,
    level: int,
    enc: bool,
    acc: SnapshotStats,
)
    ensures
        backup_stats(files.push(f), keys, comp, level, enc, acc) == add_file_stats(
            backup_stats(files, keys, comp, level, enc, acc),
            entry_model(f, keys_after(files, keys).contains(blake3_hex(f.content)), comp, level, enc),
        ),
    decreases files.len(),
{
    if files.len() == 0 {
        assert(files.push(f)[0] == f);
        assert(files.push(f).drop_first() =~= Seq::<SourceFileView>::empty());
        assert(backup_stats(
            Seq::<SourceFileView>::empty(),
            keys.insert(blake3_hex(f.content)),
            comp,
            level,
            enc,
            add_file_stats(acc, entry_model(f, keys.contains(blake3_hex(f.content)), comp, level, enc)),
        ) == add_file_stats(acc, entry_model(f, keys.contains(blake3_hex(f.content)), comp, level, enc)));
    } else {
        assert(files.push(f)[0] == files[0]);
        assert(files.push(f).drop_first() =~= files.drop_first().push(f));
        let h0 = blake3_hex(files[0].content);
        lemma_backup_stats_push(
            files.drop_first(),
            f,
            keys.insert(h0),
            comp,
            level,
            enc,
            add_file_stats(acc, entry_model(files[0], keys.contains(h0), comp, level, enc)),
        );
    }
}

/// The views of a sequence of source files.
pub open spec fn file_views(s: Seq<SourceFile>) -> Seq<SourceFileView> {
    Seq::new(s.len(), |i: int| s[i]@)
}

/// No two source files share a path, as in any directory walk.
pub open spec fn distinct_paths(files: Seq<SourceFileView>) -> bool {
    forall|i: int, j: int|
        0 <= i < j < files.len() ==> (#[trigger] files[i]).path != (#[trigger] files[j]).path
}

/// The set of hashes under which the pool holds a blob.
pub open spec fn pool_keys(blobs: Seq<(Seq<char>, Seq<u8>)>) -> Set<Seq<char>> {
    Set::new(|q: Seq<char>| has_blob(blobs, q))
}

/// The files that a backup keeps: those no exclusion pattern matches.
pub open spec fn kept_of(
    files: Seq<SourceFileView>,
    patterns: Seq<Seq<char>>,
) -> Seq<SourceFileView> {
    strutil::seq_filter(files, |f: SourceFileView| !excluded(f.path, patterns))
}

/// A hash is present after processing exactly when it was present before
/// or some processed file has it.
proof fn lemma_keys_after_iff(files: Seq<SourceFileView>, keys: Set<Seq<char>>, q: Seq<char>)
    ensures
        keys_after(files, keys).contains(q) <==> keys.contains(q) || exists|i: int|
            0 <= i < files.len() && blake3_hex((#[trigger] files[i]).content) == q,
    decreases files.len(),
{
    if files.len() > 0 {
        let h0 = blake3_hex(files[0].content);
        lemma_keys_after_iff(files.drop_first(), keys.insert(h0), q);
        if keys_after(files, keys).contains(q) {
            if !keys.contains(q) {
                if keys.insert(h0).contains(q) {
                    assert(blake3_hex(files[0].content) == q);
                } else {
                    let i = choose|i: int|
                        0 <= i < files.drop_first().len() && blake3_hex(
                            (#[trigger] files.drop_first()[i]).content,
                        ) == q;
                    assert(files[i + 1] == files.drop_first()[i]);
                }
            }
        }
        if exists|i: int| 0 <= i < files.len() && blake3_hex((#[trigger] files[i]).content) == q {
            let i = choose|i: int|
                0 <= i < files.len() && blake3_hex((#[trigger] files[i]).content) == q;
            if i == 0 {
                assert(keys.insert(h0).contains(q));
            } else {
                assert(files.drop_first()[i - 1] == files[i]);
            }
        }
    }
}

/// The effective compression for a target: its override, else the global
/// setting.
pub open spec fn effective_compression(
    settings: Settings,
    target: BackupTarget,
) -> CompressionKind {
    match target.compression {
        Some(c) => c,
        None => settings.compression,
    }
}

/// A statistics record with its duration replaced.
pub open spec fn with_duration(s: SnapshotStats, d: u64) -> SnapshotStats {
    SnapshotStats {
        total_files: s.total_files,
        new_files: s.new_files,
        modified_files: s.modified_files,
        unchanged_files: s.unchanged_files,
        total_size: s.total_size,
        stored_size: s.stored_size,
        deduplicated_blobs: s.deduplicated_blobs,
        duration_ms: d,
    }
}

/// The snapshot a backup commits: fixed metadata, one entry per kept file
/// reachable under its path, no other entries, and the accumulated
/// statistics.
pub open spec fn snapshot_matches_backup(
    snap: SnapshotView,
    kept: Seq<SourceFileView>,
    keys0: Set<Seq<char>>,
    name: Seq<char>,
    source: Seq<char>,
    created_at: Timestamp,
    comp: CompressionKind,
    level: int,
    enc: bool,
    duration_ms: u64,
) -> bool {
    &&& snap.id == crate::manifest::id_of(created_at, name)
    &&& snap.target_name == name
    &&& snap.source_path == source
    &&& snap.created_at == created_at
    &&& snap.compression == comp
    &&& snap.encrypted == enc
    &&& files_sorted(snap.files)
    &&& snap.files.len() == kept.len()
    &&& (forall|i: int|
        0 <= i < kept.len() ==> find_entry(snap.files, (#[trigger] kept[i]).path) == Some(
            entry_model(kept[i], dedup_at(kept, i, keys0), comp, level, enc),
        ))
    &&& (forall|j: int|
        0 <= j < snap.files.len() ==> exists|i: int|
            0 <= i < kept.len() && (#[trigger] snap.files[j]).0 == kept[i].path)
    &&& snap.stats == with_duration(
        backup_stats(kept, keys0, comp, level, enc, zero_stats()),
        duration_ms,
    )
}

/// How a backup extends the blob pool: exactly the kept files' hashes join
/// it, blobs present before keep their bytes untouched, and every new blob
/// decodes back to the content of a kept file with its hash.
pub open spec fn blobs_extended_by_backup(
    old_blobs: Seq<(Seq<char>, Seq<u8>)>,
    new_blobs: Seq<(Seq<char>, Seq<u8>)>,
    kept: Seq<SourceFileView>,
    comp: CompressionKind,
    level: int,
    enc: bool,
    pw: Option<Seq<char>>,
) -> bool {
    &&& (forall|q: Seq<char>|
        #[trigger] has_blob(new_blobs, q) <==> has_blob(old_blobs, q) || exists|i: int|
            0 <= i < kept.len() && blake3_hex((#[trigger] kept[i]).content) == q)
    &&& (forall|q: Seq<char>|
        has_blob(old_blobs, q) ==> #[trigger] find_blob(new_blobs, q) == find_blob(old_blobs, q))
    &&& (forall|q: Seq<char>|
        #[trigger] has_blob(new_blobs, q) && !has_blob(old_blobs, q) ==> exists|i: int|
            {
                &&& 0 <= i < kept.len()
                &&& blake3_hex((#[trigger] kept[i]).content) == q
                &&& decode_pipeline(find_blob(new_blobs, q)->0, comp, enc, pw) == Some(
                    kept[i].content,
                )
            })
}

/// Executes a backup of one target over the walked source files, storing
/// new blobs in the repository and committing the snapshot manifest last,
/// after every referenced blob exists.
///
/// The kept files are those no exclusion pattern matches.  A file whose
/// content hash is already in the pool is recorded as deduplicated and its
/// content is not stored again; the pool's existing bytes are never
/// rewritten.  Encryption is on exactly when the settings ask for it and a
/// password is given.  On failure (only the compression or encryption
/// backend can fail) no snapshot is committed and already-present blobs
/// are untouched.  With no compression and no encryption the backup always
/// succeeds.  `duration_ms` is the caller's wall-clock measurement of the
/// walk, recorded in the statistics.
pub fn backup_target(
    settings: &Settings,
    name: &str,
    target: &BackupTarget,
    password: Option<&str>,
    files: Vec<SourceFile>,
    created_at: Timestamp,
    duration_ms: u64,
    repo: &mut Repository,
) -> (r: Result<Snapshot, BackupError>)
    requires
        repo_wf(old(repo)@),
        distinct_paths(file_views(files@)),
    ensures
        repo_wf(final(repo)@),
        ({
            let kept = kept_of(file_views(files@), pattern_views(target.exclude@));
            let keys0 = pool_keys(old(repo)@.blobs);
            let comp = effective_compression(*settings, *target);
            let enc = settings.encrypt && password is Some;
            let pwv = pw_view(password);
            match r {
                Ok(snap) => {
                    &&& snapshot_matches_backup(
                        snap@,
                        kept,
                        keys0,
                        name@,
                        target.from@,
                        created_at,
                        comp,
                        settings.zstd_level as int,
                        enc,
                        duration_ms,
                    )
                    &&& blobs_extended_by_backup(
                        old(repo)@.blobs,
                        final(repo)@.blobs,
                        kept,
                        comp,
                        settings.zstd_level as int,
                        enc,
                        pwv,
                    )
                    &&& ((forall|i: int|
                        0 <= i < old(repo)@.snapshots.len() ==> (
                        #[trigger] old(repo)@.snapshots[i]).id != snap@.id)
                        ==> final(repo)@.snapshots == old(repo)@.snapshots.push(snap@))
                    &&& ((exists|i: int|
                        0 <= i < old(repo)@.snapshots.len() && (
                        #[trigger] old(repo)@.snapshots[i]).id == snap@.id) ==> exists|i: int|
                        0 <= i < old(repo)@.snapshots.len() && (
                        #[trigger] old(repo)@.snapshots[i]).id == snap@.id
                            && final(repo)@.snapshots == old(repo)@.snapshots.update(i, snap@))
                },
                Err(e) => {
                    &&& final(repo)@.snapshots == old(repo)@.snapshots
                    &&& (forall|q: Seq<char>|
                        has_blob(old(repo)@.blobs, q) ==> #[trigger] find_blob(
                            final(repo)@.blobs,
                            q,
                        ) == find_blob(old(repo)@.blobs, q))
                    &&& (e matches BackupError::CompressionFailed { .. } || e
                        matches BackupError::EncryptionFailed { .. })
                    &&& !(comp == CompressionKind::NoCompression && !enc)
                },
            }
        }),
{
    let compression = match target.compression {
        Some(c) => c,
        None => settings.compression,
    };
    let encrypted = settings.encrypt && password.is_some();
    let pw_arg: Option<&str> = if encrypted {
        password
    } else {
        None
    };
    let mut snapshot = Snapshot::new(
        name,
        target.from.clone(),
        compression,
        encrypted,
        created_at,
    );
    let ghost fv = file_views(files@);
    let ghost patterns = pattern_views(target.exclude@);
    let ghost keep_pred = |f: SourceFileView| !excluded(f.path, patterns);
    let ghost old_repo = old(repo)@;
    let ghost keys0 = pool_keys(old_repo.blobs);
    let ghost level = settings.zstd_level as int;
    let ghost pwv = pw_view(password);
    let n = files.len();
    let mut idx: usize = 0;
    while idx < n
        invariant
            0 <= idx <= n,
            n == files@.len(),
            fv == file_views(files@),
            patterns == pattern_views(target.exclude@),
            keep_pred == (|f: SourceFileView| !excluded(f.path, patterns)),
            distinct_paths(fv),
            old_repo == old(repo)@,
            keys0 == pool_keys(old_repo.blobs),
            level == settings.zstd_level as int,
            pwv == pw_view(password),
            encrypted == (settings.encrypt && password is Some),
            pw_arg == (if encrypted { password } else { Option::<&str>::None }),
            (encrypted ==> pw_arg == password),
            compression == effective_compression(*settings, *target),
            repo_wf(repo@),
            repo@.snapshots == old_repo.snapshots,
            forall|q: Seq<char>|
                #[trigger] has_blob(repo@.blobs, q) <==> keys_after(
                    strutil::seq_filter(fv.take(idx as int), keep_pred),
                    keys0,
                ).contains(q),
            forall|q: Seq<char>|
                has_blob(old_repo.blobs, q) ==> #[trigger] find_blob(repo@.blobs, q) == find_blob(
                    old_repo.blobs,
                    q,
                ),
            forall|q: Seq<char>|
                #[trigger] has_blob(repo@.blobs, q) && !has_blob(old_repo.blobs, q) ==> exists|
                    i: int,
                |
                    {
                        &&& 0 <= i < strutil::seq_filter(fv.take(idx as int), keep_pred).len()
                        &&& blake3_hex(
                            (#[trigger] strutil::seq_filter(fv.take(idx as int), keep_pred)[i]).content,
                        ) == q
                        &&& decode_pipeline(
                            find_blob(repo@.blobs, q)->0,
                            compression,
                            encrypted,
                            pwv,
                        ) == Some(strutil::seq_filter(fv.take(idx as int), keep_pred)[i].content)
                    },
            snapshot@.id == crate::manifest::id_of(created_at, name@),
            snapshot@.target_name == name@,
            snapshot@.source_path == target.from@,
            snapshot@.created_at == created_at,
            snapshot@.compression == compression,
            snapshot@.encrypted == encrypted,
            files_sorted(snapshot@.files),
            snapshot@.files.len() == strutil::seq_filter(fv.take(idx as int), keep_pred).len(),
            forall|i: int|
                0 <= i < strutil::seq_filter(fv.take(idx as int), keep_pred).len() ==> find_entry(
                    snapshot@.files,
                    (#[trigger] strutil::seq_filter(fv.take(idx as int), keep_pred)[i]).path,
                ) == Some(
                    entry_model(
                        strutil::seq_filter(fv.take(idx as int), keep_pred)[i],
                        dedup_at(strutil::seq_filter(fv.take(idx as int), keep_pred), i, keys0),
                        compression,
                        level,
                        encrypted,
                    ),
                ),
            forall|j: int|
                0 <= j < snapshot@.files.len() ==> exists|i: int|
                    0 <= i < strutil::seq_filter(fv.take(idx as int), keep_pred).len() && (
                    #[trigger] snapshot@.files[j]).0 == strutil::seq_filter(
                        fv.take(idx as int),
                        keep_pred,
                    )[i].path,
            snapshot@.stats == backup_stats(
                strutil::seq_filter(fv.take(idx as int), keep_pred),
                keys0,
                compression,
                level,
                encrypted,
                zero_stats(),
            ),
        decreases n - idx,
    {
        let ghost keptpre = strutil::seq_filter(fv.take(idx as int), keep_pred);
        proof {
            assert(fv.take(idx as int + 1).drop_last() =~= fv.take(idx as int));
            assert(fv.take(idx as int + 1).last() == fv[idx as int]);
            assert(fv[idx as int] == files@[idx as int]@);
        }
        if is_excluded(files[idx].path.as_str(), &target.exclude) {
            proof {
                assert(!keep_pred(fv[idx as int]));
                assert(strutil::seq_filter(fv.take(idx as int + 1), keep_pred) =~= keptpre);
            }
            idx = idx + 1;
            continue;
        }
        proof {
            assert(keep_pred(fv[idx as int]));
            assert(strutil::seq_filter(fv.take(idx as int + 1), keep_pred) =~= keptpre.push(
                fv[idx as int],
            ));
            strutil::lemma_seq_filter_membership(fv.take(idx as int), keep_pred);
        }
        let ghost keptnew = keptpre.push(fv[idx as int]);
        let ghost blobs_at_entry = repo@.blobs;
        let hash = hasher::hash_bytes(files[idx].content.as_slice());
        let dedup = repo.blob_exists(hash.as_str());
        proof {
            assert(keptnew.take(keptpre.len() as int) =~= keptpre);
            assert(dedup == dedup_at(keptnew, keptpre.len() as int, keys0));
            // the new path differs from every kept path so far
            assert forall|i: int| 0 <= i < keptpre.len() implies (#[trigger] keptpre[i]).path
                != fv[idx as int].path by {
                let k = choose|k: int| 0 <= k < fv.take(idx as int).len() && fv.take(idx as int)[k] == keptpre[i];
                assert(fv[k] == keptpre[i]);
            }
        }
        let entry: FileEntry;
        if dedup {
            entry = FileEntry {
                hash: hash.clone(),
                size: u64_of_len(files[idx].content.len()),
                stored_size: 0,
                permissions: files[idx].permissions,
                modified: files[idx].modified,
                deduplicated: true,
            };
            proof {
                assert(entry@ == entry_model(
                    fv[idx as int],
                    dedup_at(keptnew, keptpre.len() as int, keys0),
                    compression,
                    level,
                    encrypted,
                ));
                lemma_keys_after_push(keptpre, fv[idx as int], keys0);
                assert(keys_after(keptpre, keys0).insert(blake3_hex(fv[idx as int].content))
                    =~= keys_after(keptpre, keys0));
            }
        } else {
            let data = match pipeline::encode_blob(
                files[idx].content.as_slice(),
                compression,
                settings.zstd_level,
                pw_arg,
            ) {
                Ok(v) => v,
                Err(e) => {
                    let path = files[idx].path.clone();
                    return Err(
                        match e {
                            PipelineError::Compression => BackupError::CompressionFailed { path },
                            PipelineError::Encryption => BackupError::EncryptionFailed { path },
                        },
                    );
                },
            };
            let stored_size = u64_of_len(data.len());
            entry = FileEntry {
                hash: hash.clone(),
                size: u64_of_len(files[idx].content.len()),
                stored_size,
                permissions: files[idx].permissions,
                modified: files[idx].modified,
                deduplicated: false,
            };
            proof {
                assert(entry@ == entry_model(
                    fv[idx as int],
                    dedup_at(keptnew, keptpre.len() as int, keys0),
                    compression,
                    level,
                    encrypted,
                ));
            }
            let ghost blobs_before = repo@.blobs;
            repo.store_blob(hash.clone(), data);
            proof {
                lemma_keys_after_push(keptpre, fv[idx as int], keys0);
                assert(hash@ == blake3_hex(fv[idx as int].content));
                assert(keys_after(keptnew, keys0) == keys_after(keptpre, keys0).insert(hash@));
                assert forall|q: Seq<char>| #[trigger] has_blob(repo@.blobs, q) <==> keys_after(
                    keptnew,
                    keys0,
                ).contains(q) by {
                    if q == hash@ {
                        assert(find_blob(repo@.blobs, q) is Some);
                        assert(keys_after(keptpre, keys0).insert(hash@).contains(q));
                    } else {
                        assert(find_blob(repo@.blobs, q) == find_blob(blobs_before, q));
                        assert(has_blob(repo@.blobs, q) == has_blob(blobs_before, q));
                        assert(has_blob(blobs_before, q) <==> keys_after(keptpre, keys0).contains(
                            q,
                        ));
                        assert(keys_after(keptpre, keys0).insert(hash@).contains(q)
                            == keys_after(keptpre, keys0).contains(q));
                    }
                }
            }
        }
        proof {
            assert(hash@ == blake3_hex(fv[idx as int].content));
            assert forall|q: Seq<char>|
                #[trigger] has_blob(repo@.blobs, q) && !has_blob(old_repo.blobs, q) implies exists|
                i: int,
            |
                {
                    &&& 0 <= i < keptnew.len()
                    &&& blake3_hex((#[trigger] keptnew[i]).content) == q
                    &&& decode_pipeline(find_blob(repo@.blobs, q)->0, compression, encrypted, pwv)
                        == Some(keptnew[i].content)
                } by {
                if has_blob(blobs_at_entry, q) {
                    let i = choose|i: int|
                        {
                            &&& 0 <= i < keptpre.len()
                            &&& blake3_hex((#[trigger] keptpre[i]).content) == q
                            &&& decode_pipeline(
                                find_blob(blobs_at_entry, q)->0,
                                compression,
                                encrypted,
                                pwv,
                            ) == Some(keptpre[i].content)
                        };
                    assert(keptnew[i] == keptpre[i]);
                    if !dedup {
                        assert(q != hash@);
                        assert(find_blob(repo@.blobs, q) == find_blob(blobs_at_entry, q));
                    }
                } else {
                    assert(!dedup && q == hash@);
                    assert(blake3_hex(keptnew[keptnew.len() - 1].content) == q);
                }
            }
        }
        let path = files[idx].path.clone();
        let ghost files_before = snapshot@.files;
        let ghost entry_view = entry@;
        snapshot.add_file(path, entry);
        proof {
            crate::manifest::lemma_insert_entry_sorted(
                files_before,
                fv[idx as int].path,
                entry_view,
            );
            crate::manifest::lemma_insert_entry_members(
                files_before,
                fv[idx as int].path,
                entry_view,
            );
            lemma_backup_stats_push(keptpre, fv[idx as int], keys0, compression, level, encrypted, zero_stats());
            assert forall|i: int| 0 <= i < keptnew.len() implies find_entry(
                snapshot@.files,
                (#[trigger] keptnew[i]).path,
            ) == Some(
                entry_model(keptnew[i], dedup_at(keptnew, i, keys0), compression, level, encrypted),
            ) by {
                crate::manifest::lemma_insert_entry_find(
                    files_before,
                    fv[idx as int].path,
                    entry_view,
                    keptnew[i].path,
                );
                if i < keptpre.len() {
                    assert(keptnew[i] == keptpre[i]);
                    assert(keptnew.take(i) =~= keptpre.take(i));
                } else {
                    assert(keptnew[i] == fv[idx as int]);
                    assert(keptnew.take(i) =~= keptpre);
                }
            }
            assert(snapshot@.files.len() == keptnew.len()) by {
                assert(snapshot@.files == crate::manifest::insert_entry(
                    files_before,
                    fv[idx as int].path,
                    entry_view,
                ));
                lemma_insert_entry_len(files_before, fv[idx as int].path, entry_view);
                assert(!exists|j: int|
                    0 <= j < files_before.len() && (#[trigger] files_before[j]).0 == fv[idx as int].path) by {
                    if exists|j: int|
                        0 <= j < files_before.len() && (#[trigger] files_before[j]).0 == fv[idx as int].path {
                        let j = choose|j: int|
                            0 <= j < files_before.len() && (#[trigger] files_before[j]).0 == fv[idx as int].path;
                        let i = choose|i: int|
                            0 <= i < keptpre.len() && (#[trigger] files_before[j]).0 == keptpre[i].path;
                        assert(keptpre[i].path != fv[idx as int].path);
                    }
                }
            }
            assert forall|j: int| 0 <= j < snapshot@.files.len() implies exists|i: int|
                0 <= i < keptnew.len() && (#[trigger] snapshot@.files[j]).0 == keptnew[i].path by {
                if snapshot@.files[j] == (fv[idx as int].path, entry_view) {
                    assert(snapshot@.files[j].0 == keptnew[keptnew.len() - 1].path);
                } else {
                    let k = choose|k: int|
                        0 <= k < files_before.len() && files_before[k] == #[trigger] snapshot@.files[j];
                    let i = choose|i: int|
                        0 <= i < keptpre.len() && (#[trigger] files_before[k]).0 == keptpre[i].path;
                    assert(keptnew[i].path == snapshot@.files[j].0);
                }
            }
        }
        idx = idx + 1;
    }
    proof {
        assert(fv.take(n as int) =~= fv);
    }
    snapshot.stats.duration_ms = duration_ms;
    let ghost kept = strutil::seq_filter(fv, keep_pred);
    proof {
        lemma_keys_after_covers(kept, keys0);
        assert forall|j: int| 0 <= j < snapshot@.files.len() implies has_blob(
            repo@.blobs,
            (#[trigger] snapshot@.files[j]).1.hash,
        ) by {
            let i = choose|i: int|
                0 <= i < kept.len() && (#[trigger] snapshot@.files[j]).0 == kept[i].path;
            lemma_find_entry_self(snapshot@.files, j);
            assert(find_entry(snapshot@.files, kept[i].path) == Some(
                entry_model(kept[i], dedup_at(kept, i, keys0), compression, level, encrypted),
            ));
            assert(snapshot@.files[j].1.hash == blake3_hex(kept[i].content));
            assert(keys_after(kept, keys0).contains(blake3_hex(kept[i].content)));
        }
    }
    let committed = snapshot.clone();
    let ghost snap_view = snapshot@;
    let _manifest_name = repo.save_snapshot(snapshot);
    proof {
        assert(committed@ == snap_view);
        assert forall|q: Seq<char>|
            #[trigger] has_blob(final(repo)@.blobs, q) <==> has_blob(old_repo.blobs, q) || exists|
                i: int,
            | 0 <= i < kept.len() && blake3_hex((#[trigger] kept[i]).content) == q by {
            lemma_keys_after_iff(kept, keys0, q);
        }
    }
    Ok(committed)
}

/// Deduplication correctness: when two kept files at different positions
/// of one backup have byte-identical content, the later one is recorded as
/// deduplicated with no stored bytes.  Together with the backup contract —
/// only kept files' hashes join the pool, a hash already present is never
/// rewritten — and repository well-formedness, whose blob keys are unique,
/// the pool then holds exactly one blob for that content.
pub proof fn lemma_dedup_correctness(
    kept: Seq<SourceFileView>,
    keys0: Set<Seq<char>>,
    comp: CompressionKind,
    level: int,
    enc: bool,
    i: int,
    j: int,
)
    requires
        0 <= i < j < kept.len(),
        kept[i].content == kept[j].content,
    ensures
        dedup_at(kept, j, keys0),
        entry_model(kept[j], dedup_at(kept, j, keys0), comp, level, enc).deduplicated,
        entry_model(kept[j], dedup_at(kept, j, keys0), comp, level, enc).stored_size == 0,
{
    lemma_keys_after_covers(kept.take(j), keys0);
    assert(kept.take(j)[i] == kept[i]);
    assert(keys_after(kept.take(j), keys0).contains(blake3_hex(kept.take(j)[i].content)));
}

/// Prunes old snapshots of one target, keeping only the `keep` most
/// recent, and garbage-collects the blobs only they referenced.
///
/// When the target has at most `keep` snapshots nothing changes.
/// Otherwise the snapshots are ordered newest first (stably, so equal
/// timestamps keep their stored order) and everything beyond the first
/// `keep` is deleted in that order, blobs before manifests.  Returns how
/// many snapshots were deleted and how many blob bytes were freed, exactly
/// as the deletion fold prescribes.  Every surviving snapshot still
/// resolves all its blobs, as repository well-formedness is preserved.
pub fn prune_snapshots(repo: &mut Repository, target: &str, keep: usize) -> (r: (usize, u64))
    requires
        repo_wf(old(repo)@),
    ensures
        repo_wf(final(repo)@),
        ({
            let for_target = strutil::seq_filter(
                crate::manifest::sort_by_time(old(repo)@.snapshots),
                crate::manifest::target_pred(target@),
            );
            if for_target.len() <= keep {
                &&& r == (0usize, 0u64)
                &&& final(repo)@ == old(repo)@
            } else {
                let doomed = crate::manifest::sort_desc(for_target).skip(keep as int);
                &&& r.0 == for_target.len() - keep
                &&& final(repo)@ == crate::manifest::prune_fold(old(repo)@, doomed).0
                &&& r.1 == crate::manifest::prune_fold(old(repo)@, doomed).1
            }
        }),
{
    let ghost old_repo = old(repo)@;
    let ghost for_target = strutil::seq_filter(
        crate::manifest::sort_by_time(old_repo.snapshots),
        crate::manifest::target_pred(target@),
    );
    let snaps = repo.list_snapshots_for_target(target);
    proof {
        assert(crate::manifest::snap_views(snaps@).len() == snaps@.len());
    }
    if snaps.len() <= keep {
        return (0, 0);
    }
    // sort newest first, stably
    let mut sorted: Vec<Snapshot> = Vec::new();
    let n = snaps.len();
    let mut idx: usize = 0;
    while idx < n
        invariant
            0 <= idx <= n,
            n == snaps@.len(),
            for_target == crate::manifest::snap_views(snaps@),
            crate::manifest::snap_views(sorted@) == crate::manifest::sort_desc(
                for_target.take(idx as int),
            ),
        decreases n - idx,
    {
        let snap = snaps[idx].clone();
        let ghost sv = snap@;
        let ghost sorted_before = crate::manifest::snap_views(sorted@);
        proof {
            assert(sv == for_target[idx as int]);
        }
        let m = sorted.len();
        let mut k: usize = 0;
        while k < m && !sorted[k].created_at.lt(&snap.created_at)
            invariant
                0 <= k <= m,
                m == sorted@.len(),
                sv == snap@,
                crate::manifest::snap_views(sorted@) == sorted_before,
                forall|i: int|
                    0 <= i < k ==> !crate::manifest::ts_lt(
                        (#[trigger] crate::manifest::snap_views(sorted@)[i]).created_at,
                        sv.created_at,
                    ),
            decreases m - k,
        {
            k = k + 1;
        }
        proof {
            crate::manifest::lemma_insert_desc_at(sorted_before, sv, k as int);
        }
        sorted.insert(k, snap);
        proof {
            assert(crate::manifest::snap_views(sorted@) =~= sorted_before.take(k as int) + seq![sv]
                + sorted_before.skip(k as int));
            assert(for_target.take(idx as int + 1).drop_last() =~= for_target.take(idx as int));
            assert(for_target.take(idx as int + 1).last() == for_target[idx as int]);
        }
        idx = idx + 1;
    }
    proof {
        assert(for_target.take(n as int) =~= for_target);
        crate::manifest::lemma_sort_desc_ensures(for_target);
    }
    let ghost doomed = crate::manifest::sort_desc(for_target).skip(keep as int);
    let m = sorted.len();
    let mut deleted: usize = 0;
    let mut freed: u64 = 0;
    let mut k: usize = keep;
    proof {
        assert(doomed.take(0) =~= Seq::<SnapshotView>::empty());
        assert(crate::manifest::prune_fold(old_repo, Seq::<SnapshotView>::empty()) == (
            old_repo,
            0u64,
        ));
    }
    while k < m
        invariant
            keep <= k <= m,
            m == sorted@.len(),
            crate::manifest::snap_views(sorted@) == crate::manifest::sort_desc(for_target),
            doomed == crate::manifest::sort_desc(for_target).skip(keep as int),
            m == for_target.len(),
            keep < m,
            deleted == k - keep,
            repo_wf(repo@),
            repo@ == crate::manifest::prune_fold(old_repo, doomed.take(k - keep)).0,
            freed == crate::manifest::prune_fold(old_repo, doomed.take(k - keep)).1,
        decreases m - k,
    {
        let ghost cur = repo@;
        let ghost dv = crate::manifest::snap_views(sorted@)[k as int];
        proof {
            assert(dv == doomed[k - keep]);
            assert(sorted@[k as int]@ == dv);
        }
        let f = repo.delete_snapshot(&sorted[k]);
        freed = arith::sat_add_u64(freed, f);
        deleted = deleted + 1;
        proof {
            assert(repo@ == crate::manifest::delete_model(cur, dv).0);
            assert(f == crate::manifest::delete_model(cur, dv).1);
            crate::manifest::lemma_prune_fold_push(old_repo, doomed.take(k - keep), dv);
            assert(doomed.take(k - keep + 1) =~= doomed.take(k - keep).push(doomed[k - keep]));
        }
        k = k + 1;
    }
    proof {
        assert(doomed.take(m - keep) =~= doomed);
    }
    (deleted, freed)
}

/// The threshold constants of the size units.
const KIB: u64 = 1024;

/// Formats a byte count as a human-readable size with one decimal place:
/// the largest binary unit under which the value is below 1024, from bytes
/// up to pebibytes, rounding the exact value half-to-even.
pub fn format_size(bytes: u64) -> (r: String)
    ensures
        r@ == format_size_spec(bytes),
{
    proof {
        reveal_strlit(".");
        reveal_strlit(" B");
        reveal_strlit(" KiB");
        reveal_strlit(" MiB");
        reveal_strlit(" GiB");
        reveal_strlit(" TiB");
        reveal_strlit(" PiB");
    }
    let k: u32 = if bytes < KIB {
        0
    } else if bytes < KIB * KIB {
        1
    } else if bytes < KIB * KIB * KIB {
        2
    } else if bytes < KIB * KIB * KIB * KIB {
        3
    } else if bytes < KIB * KIB * KIB * KIB * KIB {
        4
    } else {
        5
    };
    let divisor: u128 = match k {
        0 => 1,
        1 => 1024,
        2 => 1024 * 1024,
        3 => 1024 * 1024 * 1024,
        4 => 1024u128 * 1024 * 1024 * 1024,
        _ => 1024u128 * 1024 * 1024 * 1024 * 1024,
    };
    let n: u128 = bytes as u128 * 10;
    let q: u128 = n / divisor;
    let rem: u128 = n % divisor;
    let tenths: u128 = if 2 * rem > divisor {
        q + 1
    } else if 2 * rem < divisor {
        q
    } else if q % 2 == 0 {
        q
    } else {
        q + 1
    };
    proof {
        assert(tenths == round_half_even(bytes as int * 10, divisor as int));
    }
    let whole: u128 = tenths / 10;
    let tenth: u128 = tenths % 10;
    let mut s = strutil::u128_to_dec(whole);
    s.append(".");
    let digit = strutil::u128_to_dec(tenth);
    s.append(digit.as_str());
    match k {
        0 => s.append(" B"),
        1 => s.append(" KiB"),
        2 => s.append(" MiB"),
        3 => s.append(" GiB"),
        4 => s.append(" TiB"),
        _ => s.append(" PiB"),
    }
    s
}

/// The exact rational `n / d` rounded to an integer, ties to even.
pub open spec fn round_half_even(n: int, d: int) -> int {
    let q = n / d;
    let r = n % d;
    if 2 * r > d {
        q + 1
    } else if 2 * r < d {
        q
    } else if q % 2 == 0 {
        q
    } else {
        q + 1
    }
}

/// The binary unit in which `bytes` is displayed, and its divisor.
pub open spec fn unit_index(bytes: u64) -> int {
    if bytes < 1024 {
        0
    } else if bytes < 1024 * 1024 {
        1
    } else if bytes < 1024 * 1024 * 1024 {
        2
    } else if bytes < 1024 * 1024 * 1024 * 1024 {
        3
    } else if bytes < 1024 * 1024 * 1024 * 1024 * 1024 {
        4
    } else {
        5
    }
}

/// The divisor belonging to a unit.
pub open spec fn unit_divisor(k: int) -> int {
    if k == 0 {
        1int
    } else if k == 1 {
        1024int
    } else if k == 2 {
        1024int * 1024
    } else if k == 3 {
        1024int * 1024 * 1024
    } else if k == 4 {
        1024int * 1024 * 1024 * 1024
    } else {
        1024int * 1024 * 1024 * 1024 * 1024
    }
}

/// The unit suffix belonging to a unit.
pub open spec fn unit_suffix(k: int) -> Seq<char> {
    if k == 0 {
        " B"@
    } else if k == 1 {
        " KiB"@
    } else if k == 2 {
        " MiB"@
    } else if k == 3 {
        " GiB"@
    } else if k == 4 {
        " TiB"@
    } else {
        " PiB"@
    }
}

/// The rendering of a byte count: value in its unit with one decimal,
/// then the unit suffix.
pub open spec fn format_size_spec(bytes: u64) -> Seq<char> {
    let k = unit_index(bytes);
    let tenths = round_half_even(bytes as int * 10, unit_divisor(k));
    strutil::dec_str((tenths / 10) as nat) + "."@ + strutil::dec_str((tenths % 10) as nat)
        + unit_suffix(k)
}

/// The length of a byte buffer as a 64-bit size.
fn u64_of_len(n: usize) -> (r: u64)
    ensures
        r == n as u64,
        r == n,
{
    n as u64
}

/// The number of entries grows by one on a fresh path and stays the same
/// on a replacement.
proof fn lemma_insert_entry_len(
    files: Seq<(Seq<char>, FileEntryView)>,
    path: Seq<char>,
    e: FileEntryView,
)
    requires
        files_sorted(files),
    ensures
        crate::manifest::insert_entry(files, path, e).len() == if exists|j: int|
            0 <= j < files.len() && (#[trigger] files[j]).0 == path {
            files.len()
        } else {
            files.len() + 1
        },
    decreases files.len(),
{
    strutil::lemma_lex_irrefl(path);
    if files.len() > 0 {
        if strutil::lex_lt(path, files[0].0) {
            assert forall|j: int| 0 <= j < files.len() implies (#[trigger] files[j]).0 != path by {
                if j > 0 {
                    strutil::lemma_lex_trans(path, files[0].0, files[j].0);
                }
            }
        } else if path == files[0].0 {
        } else {
            assert(files_sorted(files.drop_first())) by {
                assert(forall|a: int, b: int|
                    0 <= a < b < files.drop_first().len() ==> files.drop_first()[a] == files[a + 1]
                        && files.drop_first()[b] == files[b + 1]);
            }
            lemma_insert_entry_len(files.drop_first(), path, e);
            assert(forall|j: int|
                0 <= j < files.drop_first().len() ==> (#[trigger] files.drop_first()[j]) == files[j
                    + 1]);
            if exists|j: int| 0 <= j < files.len() && (#[trigger] files[j]).0 == path {
                let j = choose|j: int| 0 <= j < files.len() && (#[trigger] files[j]).0 == path;
                assert(j > 0);
                assert(files.drop_first()[j - 1].0 == path);
            }
            if exists|j: int|
                0 <= j < files.drop_first().len() && (#[trigger] files.drop_first()[j]).0 == path {
                let j = choose|j: int|
                    0 <= j < files.drop_first().len() && (#[trigger] files.drop_first()[j]).0
                        == path;
                assert(files[j + 1].0 == path);
            }
        }
    }
}

/// In a sorted file map, looking up the path of any entry yields exactly
/// that entry.
pub proof fn lemma_find_entry_self(files: Seq<(Seq<char>, FileEntryView)>, j: int)
    requires
        files_sorted(files),
        0 <= j < files.len(),
    ensures
        find_entry(files, files[j].0) == Some(files[j].1),
    decreases j,
{
    if j == 0 {
    } else {
        strutil::lemma_lex_irrefl(files[j].0);
        assert(files[0].0 != files[j].0);
        assert(forall|i: int|
            0 <= i < files.drop_first().len() ==> (#[trigger] files.drop_first()[i]) == files[i
                + 1]);
        lemma_find_entry_self(files.drop_first(), j - 1);
    }
}

} // verus!
