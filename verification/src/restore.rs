//! Restore engine and snapshot comparison.
//!
//! Restoring reads each selected file's blob from the pool, decrypts it
//! when the snapshot is encrypted, decompresses it under the snapshot's
//! kind, optionally re-hashes the result against the manifest entry, and
//! hands the decoded files back for materialization outside the core.  Any
//! missing blob, failed authentication, malformed stream or hash mismatch
//! aborts the whole restore.  The diff of two snapshots is a pure function
//! of their file maps.

use vstd::prelude::*;

verus! {

use vstd::string::*;
use crate::arith;
use crate::config::CompressionKind;
use crate::error::RestoreError;
use crate::hasher::{self, blake3_hex};
use crate::manifest::{
    entries_view,
    find_blob,
    find_entry,
    has_blob,
    FileEntry,
    FileEntryView,
    Repository,
    Snapshot,
};
use crate::pipeline::{self, decode_pipeline};
use crate::strutil::{self, contains_seq, seq_filter};

/// Options controlling restore behavior.
#[derive(Debug)]
pub struct RestoreOptions {
    /// Target directory to restore files into.
    pub target_dir: String,
    /// Password for decrypting encrypted snapshots.
    pub password: Option<String>,
    /// Overwrite a non-empty target directory.
    pub force: bool,
    /// Re-hash each restored file against its manifest entry.
    pub verify: bool,
    /// When set, restore only files whose path starts with or contains one
    /// of these strings.
    pub filter: Option<Vec<String>>,
    /// Enable verbose output.
    pub verbose: bool,
}

/// One decoded file of a restore: its source-relative path, its plaintext
/// content, and the mode bits to apply where the host supports them.
#[derive(Debug)]
pub struct RestoredFile {
    pub path: String,
    pub content: Vec<u8>,
    pub permissions: Option<u32>,
}

/// The mathematical content of a [`RestoredFile`].
pub ghost struct RestoredFileView {
    pub path: Seq<char>,
    pub content: Seq<u8>,
    pub permissions: Option<u32>,
}

impl View for RestoredFile {
    type V = RestoredFileView;

    open spec fn view(&self) -> RestoredFileView {
        RestoredFileView { path: self.path@, content: self.content@, permissions: self.permissions }
    }
}

/// Statistics from a restore operation.
#[derive(Debug, Clone, Copy, PartialEq, Eq, Structural)]
pub struct RestoreStats {
    pub files_restored: u64,
    pub bytes_restored: u64,
}

/// How a restore fails, at the level of the mathematical model.
pub ghost enum RestoreOutcomeErr {
    BlobMissing { hash: Seq<char> },
    IntegrityFailure { path: Seq<char>, expected: Seq<char>, actual: Seq<char> },
    PasswordRequired,
    DecryptionFailed,
    DecompressionFailed,
}

/// A path passes the restore filter: no filter, or some filter string is a
/// prefix of it or occurs inside it.
pub open spec fn selected(path: Seq<char>, filter: Option<Seq<Seq<char>>>) -> bool {
    match filter {
        None => true,
        Some(fs) => exists|i: int|
            0 <= i < fs.len() && ((#[trigger] fs[i]).is_prefix_of(path) || contains_seq(
                path,
                fs[i],
            )),
    }
}

/// The view of the filter option.
pub open spec fn filter_views(filter: Option<Vec<String>>) -> Option<Seq<Seq<char>>> {
    match filter {
        None => Option::<Seq<Seq<char>>>::None,
        Some(v) => Some(Seq::new(v@.len(), |i: int| v@[i]@)),
    }
}

/// The view of an optional password reference.
pub open spec fn pw_ref_view(password: Option<&str>) -> Option<Seq<char>> {
    match password {
        Some(p) => Some(p@),
        None => Option::<Seq<char>>::None,
    }
}

/// Which error decoding an entry's blob fails with, at view level.
pub open spec fn decode_err_view(
    stored: Seq<u8>,
    encrypted: bool,
    pw: Option<Seq<char>>,
) -> RestoreOutcomeErr {
    if encrypted && pw is None {
        RestoreOutcomeErr::PasswordRequired
    } else if encrypted && crate::cipher::decrypt_spec(stored, pw->0) is None {
        RestoreOutcomeErr::DecryptionFailed
    } else {
        RestoreOutcomeErr::DecompressionFailed
    }
}

/// What restoring a sequence of entries yields: the decoded files in entry
/// order, or the first failure.  Each entry needs its blob present, its
/// pipeline decodable, and (under `verify`) the decoded bytes hashing back
/// to the entry's hash.
pub open spec fn restore_model(
    entries: Seq<(Seq<char>, FileEntryView)>,
    blobs: Seq<(Seq<char>, Seq<u8>)>,
    comp: CompressionKind,
    encrypted: bool,
    pw: Option<Seq<char>>,
    verify: bool,
) -> Result<Seq<RestoredFileView>, RestoreOutcomeErr>
    decreases entries.len(),
{
    if entries.len() == 0 {
        Ok(Seq::empty())
    } else {
        let path = entries[0].0;
        let e = entries[0].1;
        match find_blob(blobs, e.hash) {
            None => Err(RestoreOutcomeErr::BlobMissing { hash: e.hash }),
            Some(stored) => match decode_pipeline(stored, comp, encrypted, pw) {
                None => Err(decode_err_view(stored, encrypted, pw)),
                Some(d) => if verify && blake3_hex(d) != e.hash {
                    Err(
                        RestoreOutcomeErr::IntegrityFailure {
                            path,
                            expected: e.hash,
                            actual: blake3_hex(d),
                        },
                    )
                } else {
                    match restore_model(entries.drop_first(), blobs, comp, encrypted, pw, verify) {
                        Err(er) => Err(er),
                        Ok(rest) => Ok(
                            seq![
                                RestoredFileView { path, content: d, permissions: e.permissions },
                            ] + rest,
                        ),
                    }
                },
            },
        }
    }
}

/// Restoring a concatenation restores the first part, then the second.
pub proof fn lemma_restore_model_concat(
    a: Seq<(Seq<char>, FileEntryView)>,
    b: Seq<(Seq<char>, FileEntryView)>,
    blobs: Seq<(Seq<char>, Seq<u8>)>,
    comp: CompressionKind,
    encrypted: bool,
    pw: Option<Seq<char>>,
    verify: bool,
)
    ensures
        restore_model(a + b, blobs, comp, encrypted, pw, verify) == match restore_model(
            a,
            blobs,
            comp,
            encrypted,
            pw,
            verify,
        ) {
            Err(er) => Err::<Seq<RestoredFileView>, RestoreOutcomeErr>(er),
            Ok(s) => match restore_model(b, blobs, comp, encrypted, pw, verify) {
                Err(er) => Err(er),
                Ok(t) => Ok(s + t),
            },
        },
    decreases a.len(),
{
    if a.len() == 0 {
        assert(a + b =~= b);
        if restore_model(b, blobs, comp, encrypted, pw, verify) is Ok {
            assert(Seq::<RestoredFileView>::empty() + restore_model(
                b,
                blobs,
                comp,
                encrypted,
                pw,
                verify,
            )->Ok_0 =~= restore_model(b, blobs, comp, encrypted, pw, verify)->Ok_0);
        }
    } else {
        assert((a + b)[0] == a[0]);
        assert((a + b).drop_first() =~= a.drop_first() + b);
        lemma_restore_model_concat(a.drop_first(), b, blobs, comp, encrypted, pw, verify);
        let head = a[0];
        match find_blob(blobs, head.1.hash) {
            None => {},
            Some(stored) => match decode_pipeline(stored, comp, encrypted, pw) {
                None => {},
                Some(d) => {
                    if !(verify && blake3_hex(d) != head.1.hash) {
                        let rt = restore_model(a.drop_first(), blobs, comp, encrypted, pw, verify);
                        let rb = restore_model(b, blobs, comp, encrypted, pw, verify);
                        let one = seq![
                            RestoredFileView {
                                path: head.0,
                                content: d,
                                permissions: head.1.permissions,
                            },
                        ];
                        if rt is Ok && rb is Ok {
                            assert(one + (rt->Ok_0 + rb->Ok_0) =~= (one + rt->Ok_0) + rb->Ok_0);
                        }
                    }
                },
            },
        }
    }
}

/// The plaintext bytes a restore reports: the sum of the entries' sizes,
/// saturating.
pub open spec fn restored_bytes(entries: Seq<(Seq<char>, FileEntryView)>) -> u64
    decreases entries.len(),
{
    if entries.len() == 0 {
        0u64
    } else {
        arith::sat_add(restored_bytes(entries.drop_last()), entries.last().1.size)
    }
}

/// The views of restored files.
pub open spec fn restored_views(files: Seq<RestoredFile>) -> Seq<RestoredFileView> {
    Seq::new(files.len(), |i: int| files[i]@)
}

/// The view of a restore error.
pub open spec fn restore_err_view(e: RestoreError) -> RestoreOutcomeErr {
    match e {
        RestoreError::BlobMissing { hash } => RestoreOutcomeErr::BlobMissing { hash: hash@ },
        RestoreError::IntegrityFailure { path, expected, actual } => RestoreOutcomeErr::IntegrityFailure {
            path: path@,
            expected: expected@,
            actual: actual@,
        },
        RestoreError::PasswordRequired => RestoreOutcomeErr::PasswordRequired,
        RestoreError::DecryptionFailed => RestoreOutcomeErr::DecryptionFailed,
        _ => RestoreOutcomeErr::DecompressionFailed,
    }
}

/// Whether a path passes the restore filter.
fn path_selected(path: &str, filter: &Option<Vec<String>>) -> (r: bool)
    ensures
        r == selected(path@, filter_views(*filter)),
{
    match filter.as_ref() {
        None => {
            assert(*filter is None);
            true
        },
        Some(fs) => {
            assert(*filter is Some);
            let n = fs.len();
            let mut i: usize = 0;
            while i < n
                invariant
                    0 <= i <= n,
                    n == fs@.len(),
                    *filter is Some,
                    (*filter)->0 == *fs,
                    forall|j: int|
                        0 <= j < i ==> !(((#[trigger] fs@[j])@).is_prefix_of(path@)
                            || contains_seq(path@, fs@[j]@)),
                decreases n - i,
            {
                if strutil::str_starts_with(path, fs[i].as_str()) || strutil::str_contains(
                    path,
                    fs[i].as_str(),
                ) {
                    proof {
                        assert((*filter)->0 == *fs);
                        let views = filter_views(*filter)->0;
                        assert(views.len() == fs@.len());
                        assert(forall|k: int| 0 <= k < views.len() ==> views[k] == fs@[k]@);
                        assert(views =~= Seq::new(fs@.len(), |k: int| fs@[k]@));
                        assert(views[i as int] == fs@[i as int]@);
                        assert(views[i as int].is_prefix_of(path@) || contains_seq(
                            path@,
                            views[i as int],
                        ));
                    }
                    return true;
                }
                i = i + 1;
            }
            proof {
                let views = filter_views(*filter)->0;
                assert(views =~= Seq::new(fs@.len(), |k: int| fs@[k]@));
                assert(forall|j: int| 0 <= j < views.len() ==> (#[trigger] views[j]) == fs@[j]@);
                assert(!selected(path@, filter_views(*filter)));
            }
            false
        },
    }
}

/// Restores the selected files of a snapshot from the repository.
///
/// The files are decoded in the snapshot's (lexicographic) order; the
/// first missing blob, failed decryption, malformed stream or — under
/// `verify` — hash mismatch aborts the restore with the corresponding
/// error.  On success the decoded files and totals come back exactly as
/// the restore model prescribes; writing them under `target_dir` happens
/// outside the core, which is also where a non-empty target without
/// `force` is rejected.
pub fn restore_snapshot(repo: &Repository, snapshot: &Snapshot, opts: &RestoreOptions) -> (r:
    Result<(Vec<RestoredFile>, RestoreStats), RestoreError>)
    ensures
        ({
            let sel = seq_filter(
                snapshot@.files,
                |pe: (Seq<char>, FileEntryView)| selected(pe.0, filter_views(opts.filter)),
            );
            let pwv = match opts.password {
                Some(p) => Some(p@),
                None => Option::<Seq<char>>::None,
            };
            match r {
                Ok(out) => {
                    &&& restore_model(
                        sel,
                        repo@.blobs,
                        snapshot@.compression,
                        snapshot@.encrypted,
                        pwv,
                        opts.verify,
                    ) == Ok::<Seq<RestoredFileView>, RestoreOutcomeErr>(restored_views(out.0@))
                    &&& out.1 == RestoreStats {
                        files_restored: sel.len() as u64,
                        bytes_restored: restored_bytes(sel),
                    }
                    &&& out.0@.len() == sel.len()
                },
                Err(e) => restore_model(
                    sel,
                    repo@.blobs,
                    snapshot@.compression,
                    snapshot@.encrypted,
                    pwv,
                    opts.verify,
                ) == Err::<Seq<RestoredFileView>, RestoreOutcomeErr>(restore_err_view(e)),
            }
        }),
{
    let ghost all = snapshot@.files;
    let ghost sel_pred = |pe: (Seq<char>, FileEntryView)|
        selected(pe.0, filter_views(opts.filter));
    let ghost pwv = match &opts.password {
        Some(p) => Some(p@),
        None => Option::<Seq<char>>::None,
    };
    let password_ref: Option<&str> = match opts.password {
        Some(ref p) => Some(p.as_str()),
        None => None,
    };
    let mut out: Vec<RestoredFile> = Vec::new();
    let mut files_restored: u64 = 0;
    let mut bytes_restored: u64 = 0;
    let n = snapshot.files.len();
    proof {
        assert(all.take(0) =~= Seq::<(Seq<char>, FileEntryView)>::empty());
        assert(seq_filter(Seq::<(Seq<char>, FileEntryView)>::empty(), sel_pred) =~= Seq::<
            (Seq<char>, FileEntryView),
        >::empty());
        assert(restored_views(out@) =~= Seq::<RestoredFileView>::empty());
        assert(all =~= entries_view(snapshot.files@));
    }
    let mut i: usize = 0;
    while i < n
        invariant
            0 <= i <= n,
            n == snapshot.files@.len(),
            all == snapshot@.files,
            all.len() == n,
            sel_pred == (|pe: (Seq<char>, FileEntryView)|
                selected(pe.0, filter_views(opts.filter))),
            pwv == (match opts.password {
                Some(p) => Some(p@),
                None => Option::<Seq<char>>::None,
            }),
            pw_ref_view(password_ref) == pwv,
            restore_model(
                seq_filter(all.take(i as int), sel_pred),
                repo@.blobs,
                snapshot@.compression,
                snapshot@.encrypted,
                pwv,
                opts.verify,
            ) == Ok::<Seq<RestoredFileView>, RestoreOutcomeErr>(restored_views(out@)),
            out@.len() == seq_filter(all.take(i as int), sel_pred).len(),
            files_restored == seq_filter(all.take(i as int), sel_pred).len(),
            bytes_restored == restored_bytes(seq_filter(all.take(i as int), sel_pred)),
        decreases n - i,
    {
        let ghost selpre = seq_filter(all.take(i as int), sel_pred);
        proof {
            assert(all.take(i as int + 1).drop_last() =~= all.take(i as int));
            assert(all.take(i as int + 1).last() == all[i as int]);
            assert(all[i as int] == (snapshot.files@[i as int].0@, snapshot.files@[i as int].1@));
            strutil::lemma_seq_filter_len(all.take(i as int), sel_pred);
        }
        if !path_selected(snapshot.files[i].0.as_str(), &opts.filter) {
            proof {
                assert(!sel_pred(all[i as int]));
                assert(seq_filter(all.take(i as int + 1), sel_pred) =~= selpre);
            }
            i = i + 1;
            continue;
        }
        proof {
            assert(sel_pred(all[i as int]));
            assert(seq_filter(all.take(i as int + 1), sel_pred) =~= selpre.push(all[i as int]));
        }
        let ghost selnew = selpre.push(all[i as int]);
        let ghost entry_view = all[i as int].1;
        proof {
            assert(seq![all[i as int]][0] == all[i as int]);
        }
        let entry: &FileEntry = &snapshot.files[i].1;
        proof {
            assert(entry_view.hash == snapshot.files@[i as int].1.hash@);
        }
        let stored = match repo.read_blob(entry.hash.as_str()) {
            Some(v) => v,
            None => {
                proof {
                    assert(find_blob(repo@.blobs, entry_view.hash) is None);
                    assert(restore_model(
                        seq![all[i as int]],
                        repo@.blobs,
                        snapshot@.compression,
                        snapshot@.encrypted,
                        pwv,
                        opts.verify,
                    ) == Err::<Seq<RestoredFileView>, RestoreOutcomeErr>(
                        RestoreOutcomeErr::BlobMissing { hash: entry_view.hash },
                    ));
                    lemma_step_err(
                        selpre,
                        all[i as int],
                        repo@.blobs,
                        snapshot@.compression,
                        snapshot@.encrypted,
                        pwv,
                        opts.verify,
                        RestoreOutcomeErr::BlobMissing { hash: entry_view.hash },
                        restored_views(out@),
                    );
                    lemma_tail_err(
                        selnew,
                        all,
                        i as int,
                        sel_pred,
                        repo@.blobs,
                        snapshot@.compression,
                        snapshot@.encrypted,
                        pwv,
                        opts.verify,
                    );
                }
                return Err(RestoreError::BlobMissing { hash: entry.hash.clone() });
            },
        };
        let ghost stored_view = stored@;
        let decoded = match pipeline::decode_blob(
            stored.as_slice(),
            snapshot.compression,
            snapshot.encrypted,
            password_ref,
        ) {
            Ok(v) => v,
            Err(e) => {
                proof {
                    assert(find_blob(repo@.blobs, entry_view.hash) == Some(stored_view));
                    assert(decode_pipeline(
                        stored_view,
                        snapshot@.compression,
                        snapshot@.encrypted,
                        pwv,
                    ) is None);
                    assert(restore_err_view(e) == decode_err_view(
                        stored_view,
                        snapshot@.encrypted,
                        pwv,
                    ));
                    assert(restore_model(
                        seq![all[i as int]],
                        repo@.blobs,
                        snapshot@.compression,
                        snapshot@.encrypted,
                        pwv,
                        opts.verify,
                    ) == Err::<Seq<RestoredFileView>, RestoreOutcomeErr>(
                        decode_err_view(stored_view, snapshot@.encrypted, pwv),
                    ));
                    lemma_step_err(
                        selpre,
                        all[i as int],
                        repo@.blobs,
                        snapshot@.compression,
                        snapshot@.encrypted,
                        pwv,
                        opts.verify,
                        decode_err_view(stored_view, snapshot@.encrypted, pwv),
                        restored_views(out@),
                    );
                    lemma_tail_err(
                        selnew,
                        all,
                        i as int,
                        sel_pred,
                        repo@.blobs,
                        snapshot@.compression,
                        snapshot@.encrypted,
                        pwv,
                        opts.verify,
                    );
                }
                return Err(e);
            },
        };
        let ghost decoded_view = decoded@;
        if opts.verify {
            let actual = hasher::hash_bytes(decoded.as_slice());
            if !strutil::str_eq(actual.as_str(), entry.hash.as_str()) {
                proof {
                    assert(find_blob(repo@.blobs, entry_view.hash) == Some(stored_view));
                    assert(decode_pipeline(
                        stored_view,
                        snapshot@.compression,
                        snapshot@.encrypted,
                        pwv,
                    ) == Some(decoded_view));
                    assert(blake3_hex(decoded_view) != entry_view.hash);
                    assert(restore_model(
                        seq![all[i as int]],
                        repo@.blobs,
                        snapshot@.compression,
                        snapshot@.encrypted,
                        pwv,
                        opts.verify,
                    ) == Err::<Seq<RestoredFileView>, RestoreOutcomeErr>(
                        RestoreOutcomeErr::IntegrityFailure {
                            path: all[i as int].0,
                            expected: entry_view.hash,
                            actual: blake3_hex(decoded_view),
                        },
                    ));
                    lemma_step_err(
                        selpre,
                        all[i as int],
                        repo@.blobs,
                        snapshot@.compression,
                        snapshot@.encrypted,
                        pwv,
                        opts.verify,
                        RestoreOutcomeErr::IntegrityFailure {
                            path: all[i as int].0,
                            expected: entry_view.hash,
                            actual: blake3_hex(decoded_view),
                        },
                        restored_views(out@),
                    );
                    lemma_tail_err(
                        selnew,
                        all,
                        i as int,
                        sel_pred,
                        repo@.blobs,
                        snapshot@.compression,
                        snapshot@.encrypted,
                        pwv,
                        opts.verify,
                    );
                }
                return Err(
                    RestoreError::IntegrityFailure {
                        path: snapshot.files[i].0.clone(),
                        expected: entry.hash.clone(),
                        actual,
                    },
                );
            }
        }
        let ghost out_before = restored_views(out@);
        let restored = RestoredFile {
            path: snapshot.files[i].0.clone(),
            content: decoded,
            permissions: entry.permissions,
        };
        out.push(restored);
        files_restored = arith::sat_add_u64(files_restored, 1);
        bytes_restored = arith::sat_add_u64(bytes_restored, entry.size);
        proof {
            let one = seq![
                RestoredFileView {
                    path: all[i as int].0,
                    content: decoded_view,
                    permissions: entry_view.permissions,
                },
            ];
            assert(restore_model(
                seq![all[i as int]],
                repo@.blobs,
                snapshot@.compression,
                snapshot@.encrypted,
                pwv,
                opts.verify,
            ) == Ok::<Seq<RestoredFileView>, RestoreOutcomeErr>(one)) by {
                assert(restore_model(
                    Seq::<(Seq<char>, FileEntryView)>::empty(),
                    repo@.blobs,
                    snapshot@.compression,
                    snapshot@.encrypted,
                    pwv,
                    opts.verify,
                ) == Ok::<Seq<RestoredFileView>, RestoreOutcomeErr>(Seq::<RestoredFileView>::empty()));
                assert(find_blob(repo@.blobs, entry_view.hash) == Some(stored_view));
                assert(decode_pipeline(
                    stored_view,
                    snapshot@.compression,
                    snapshot@.encrypted,
                    pwv,
                ) == Some(decoded_view));
                if opts.verify {
                    assert(blake3_hex(decoded_view) == entry_view.hash);
                }
                assert(seq![all[i as int]].drop_first()
                    =~= Seq::<(Seq<char>, FileEntryView)>::empty());
                assert(one + Seq::<RestoredFileView>::empty() =~= one);
            }
            lemma_restore_model_concat(
                selpre,
                seq![all[i as int]],
                repo@.blobs,
                snapshot@.compression,
                snapshot@.encrypted,
                pwv,
                opts.verify,
            );
            assert(selnew =~= selpre + seq![all[i as int]]);
            assert(restored_views(out@) =~= out_before + one);
            assert(selnew.drop_last() =~= selpre);
            assert(selnew.last() == all[i as int]);
        }
        i = i + 1;
    }
    proof {
        assert(all.take(n as int) =~= all);
    }
    Ok((out, RestoreStats { files_restored, bytes_restored }))
}

/// Differences between two snapshots: paths added, modified and removed
/// in the newer one, with the corresponding size totals.
#[derive(Debug)]
pub struct SnapshotDiff {
    pub added: Vec<String>,
    pub modified: Vec<String>,
    pub removed: Vec<String>,
    pub added_size: u64,
    pub modified_size_delta: i64,
    pub removed_size: u64,
}

/// The mathematical content of a [`SnapshotDiff`].
pub ghost struct SnapshotDiffView {
    pub added: Seq<Seq<char>>,
    pub modified: Seq<Seq<char>>,
    pub removed: Seq<Seq<char>>,
    pub added_size: u64,
    pub modified_size_delta: i64,
    pub removed_size: u64,
}

impl View for SnapshotDiff {
    type V = SnapshotDiffView;

    open spec fn view(&self) -> SnapshotDiffView {
        SnapshotDiffView {
            added: Seq::new(self.added@.len(), |i: int| self.added@[i]@),
            modified: Seq::new(self.modified@.len(), |i: int| self.modified@[i]@),
            removed: Seq::new(self.removed@.len(), |i: int| self.removed@[i]@),
            added_size: self.added_size,
            modified_size_delta: self.modified_size_delta,
            removed_size: self.removed_size,
        }
    }
}

/// An entry whose path is absent from `files`.
pub open spec fn absent_pred(
    files: Seq<(Seq<char>, FileEntryView)>,
) -> spec_fn((Seq<char>, FileEntryView)) -> bool {
    |pe: (Seq<char>, FileEntryView)| find_entry(files, pe.0) is None
}

/// An entry whose path is present in `files` under a different hash.
pub open spec fn changed_pred(
    files: Seq<(Seq<char>, FileEntryView)>,
) -> spec_fn((Seq<char>, FileEntryView)) -> bool {
    |pe: (Seq<char>, FileEntryView)|
        match find_entry(files, pe.0) {
            Some(oe) => oe.hash != pe.1.hash,
            None => false,
        }
}

/// The newer entries whose paths the older snapshot lacks.
pub open spec fn diff_added(
    older: Seq<(Seq<char>, FileEntryView)>,
    newer: Seq<(Seq<char>, FileEntryView)>,
) -> Seq<(Seq<char>, FileEntryView)> {
    seq_filter(newer, absent_pred(older))
}

/// The newer entries present in both snapshots under different hashes.
pub open spec fn diff_modified(
    older: Seq<(Seq<char>, FileEntryView)>,
    newer: Seq<(Seq<char>, FileEntryView)>,
) -> Seq<(Seq<char>, FileEntryView)> {
    seq_filter(newer, changed_pred(older))
}

/// The older entries whose paths the newer snapshot lacks.
pub open spec fn diff_removed(
    older: Seq<(Seq<char>, FileEntryView)>,
    newer: Seq<(Seq<char>, FileEntryView)>,
) -> Seq<(Seq<char>, FileEntryView)> {
    seq_filter(older, absent_pred(newer))
}

/// The paths of a sequence of entries, in order.
pub open spec fn paths_of(entries: Seq<(Seq<char>, FileEntryView)>) -> Seq<Seq<char>> {
    Seq::new(entries.len(), |i: int| entries[i].0)
}

/// The entries' plaintext sizes summed with saturation.
pub open spec fn sizes_sum(entries: Seq<(Seq<char>, FileEntryView)>) -> u64
    decreases entries.len(),
{
    if entries.len() == 0 {
        0u64
    } else {
        arith::sat_add(sizes_sum(entries.drop_last()), entries.last().1.size)
    }
}

/// The signed size change of the modified entries, against the older
/// snapshot, saturating at the 64-bit signed range.
pub open spec fn delta_sum(
    older: Seq<(Seq<char>, FileEntryView)>,
    entries: Seq<(Seq<char>, FileEntryView)>,
) -> i64
    decreases entries.len(),
{
    if entries.len() == 0 {
        0i64
    } else {
        arith::sat_add_signed(
            delta_sum(older, entries.drop_last()),
            arith::clamped_diff(
                entries.last().1.size,
                find_entry(older, entries.last().0)->0.size,
            ),
        )
    }
}

/// Looks a path up in a snapshot's file map.
pub fn lookup_entry<'a>(files: &'a Vec<(String, FileEntry)>, path: &str) -> (r: Option<
    &'a FileEntry,
>)
    ensures
        match r {
            Some(e) => find_entry(entries_view(files@), path@) == Some(e@),
            None => find_entry(entries_view(files@), path@) is None,
        },
{
    let ghost fv = entries_view(files@);
    let n = files.len();
    let mut i: usize = 0;
    while i < n
        invariant
            0 <= i <= n,
            n == files@.len(),
            fv == entries_view(files@),
            forall|j: int| 0 <= j < i ==> (#[trigger] fv[j]).0 != path@,
        decreases n - i,
    {
        if strutil::str_eq(files[i].0.as_str(), path) {
            proof {
                crate::manifest::lemma_find_entry_first(fv, path@, i as int);
            }
            return Some(&files[i].1);
        }
        i = i + 1;
    }
    proof {
        crate::manifest::lemma_find_entry_none(fv, path@);
    }
    None
}

/// Compares two snapshots and returns the differences.
///
/// A path only in the newer snapshot is added; one in both under different
/// hashes is modified; one only in the older is removed.  Entries with
/// equal hashes are ignored.  A pure function of the two file maps.
pub fn diff_snapshots(older: &Snapshot, newer: &Snapshot) -> (d: SnapshotDiff)
    ensures
        d@.added == paths_of(diff_added(older@.files, newer@.files)),
        d@.modified == paths_of(diff_modified(older@.files, newer@.files)),
        d@.removed == paths_of(diff_removed(older@.files, newer@.files)),
        d@.added_size == sizes_sum(diff_added(older@.files, newer@.files)),
        d@.modified_size_delta == delta_sum(
            older@.files,
            diff_modified(older@.files, newer@.files),
        ),
        d@.removed_size == sizes_sum(diff_removed(older@.files, newer@.files)),
{
    let ghost ov = older@.files;
    let ghost nv = newer@.files;
    let mut added: Vec<String> = Vec::new();
    let mut modified: Vec<String> = Vec::new();
    let mut removed: Vec<String> = Vec::new();
    let mut added_size: u64 = 0;
    let mut modified_size_delta: i64 = 0;
    let mut removed_size: u64 = 0;
    proof {
        assert(ov =~= entries_view(older.files@));
        assert(nv =~= entries_view(newer.files@));
    }
    let n = newer.files.len();
    let mut i: usize = 0;
    while i < n
        invariant
            0 <= i <= n,
            n == newer.files@.len(),
            ov == older@.files,
            nv == newer@.files,
            ov == entries_view(older.files@),
            nv == entries_view(newer.files@),
            added@.len() == seq_filter(nv.take(i as int), absent_pred(ov)).len(),
            forall|k: int|
                0 <= k < added@.len() ==> (#[trigger] added@[k])@ == seq_filter(
                    nv.take(i as int),
                    absent_pred(ov),
                )[k].0,
            modified@.len() == seq_filter(nv.take(i as int), changed_pred(ov)).len(),
            forall|k: int|
                0 <= k < modified@.len() ==> (#[trigger] modified@[k])@ == seq_filter(
                    nv.take(i as int),
                    changed_pred(ov),
                )[k].0,
            added_size == sizes_sum(seq_filter(nv.take(i as int), absent_pred(ov))),
            modified_size_delta == delta_sum(
                ov,
                seq_filter(nv.take(i as int), changed_pred(ov)),
            ),
        decreases n - i,
    {
        let ghost addpre = seq_filter(nv.take(i as int), absent_pred(ov));
        let ghost modpre = seq_filter(nv.take(i as int), changed_pred(ov));
        proof {
            assert(nv.take(i as int + 1).drop_last() =~= nv.take(i as int));
            assert(nv.take(i as int + 1).last() == nv[i as int]);
            assert(nv[i as int] == (newer.files@[i as int].0@, newer.files@[i as int].1@));
        }
        let path = &newer.files[i].0;
        let entry = &newer.files[i].1;
        match lookup_entry(&older.files, path.as_str()) {
            None => {
                assert(absent_pred(ov)(nv[i as int]));
                assert(!changed_pred(ov)(nv[i as int]));
                added.push(path.clone());
                added_size = arith::sat_add_u64(added_size, entry.size);
                proof {
                    assert(seq_filter(nv.take(i as int + 1), absent_pred(ov)) =~= addpre.push(
                        nv[i as int],
                    ));
                    assert(seq_filter(nv.take(i as int + 1), changed_pred(ov)) =~= modpre);
                    assert(addpre.push(nv[i as int]).drop_last() =~= addpre);
                    assert(added@.last()@ == nv[i as int].0);
                }
            },
            Some(old_entry) => {
                assert(!absent_pred(ov)(nv[i as int]));
                if !strutil::str_eq(old_entry.hash.as_str(), entry.hash.as_str()) {
                    assert(changed_pred(ov)(nv[i as int]));
                    modified.push(path.clone());
                    modified_size_delta = arith::sat_add_i64(
                        modified_size_delta,
                        arith::clamped_diff_u64(entry.size, old_entry.size),
                    );
                    proof {
                        assert(seq_filter(nv.take(i as int + 1), changed_pred(ov)) =~= modpre.push(
                            nv[i as int],
                        ));
                        assert(modified@.last()@ == nv[i as int].0);
                        assert(seq_filter(nv.take(i as int + 1), absent_pred(ov)) =~= addpre);
                        assert(modpre.push(nv[i as int]).drop_last() =~= modpre);
                        assert(find_entry(ov, nv[i as int].0)->0 == old_entry@);
                    }
                } else {
                    proof {
                        assert(!changed_pred(ov)(nv[i as int]));
                        assert(seq_filter(nv.take(i as int + 1), absent_pred(ov)) =~= addpre);
                        assert(seq_filter(nv.take(i as int + 1), changed_pred(ov)) =~= modpre);
                    }
                }
            },
        }
        i = i + 1;
    }
    proof {
        assert(nv.take(n as int) =~= nv);
    }
    let m = older.files.len();
    let mut j: usize = 0;
    while j < m
        invariant
            0 <= j <= m,
            m == older.files@.len(),
            ov == older@.files,
            nv == newer@.files,
            ov == entries_view(older.files@),
            nv == entries_view(newer.files@),
            added@.len() == diff_added(ov, nv).len(),
            forall|k: int|
                0 <= k < added@.len() ==> (#[trigger] added@[k])@ == diff_added(ov, nv)[k].0,
            modified@.len() == diff_modified(ov, nv).len(),
            forall|k: int|
                0 <= k < modified@.len() ==> (#[trigger] modified@[k])@ == diff_modified(
                    ov,
                    nv,
                )[k].0,
            added_size == sizes_sum(diff_added(ov, nv)),
            modified_size_delta == delta_sum(ov, diff_modified(ov, nv)),
            removed@.len() == seq_filter(ov.take(j as int), absent_pred(nv)).len(),
            forall|k: int|
                0 <= k < removed@.len() ==> (#[trigger] removed@[k])@ == seq_filter(
                    ov.take(j as int),
                    absent_pred(nv),
                )[k].0,
            removed_size == sizes_sum(seq_filter(ov.take(j as int), absent_pred(nv))),
        decreases m - j,
    {
        let ghost rempre = seq_filter(ov.take(j as int), absent_pred(nv));
        proof {
            assert(ov.take(j as int + 1).drop_last() =~= ov.take(j as int));
            assert(ov.take(j as int + 1).last() == ov[j as int]);
            assert(ov[j as int] == (older.files@[j as int].0@, older.files@[j as int].1@));
        }
        let path = &older.files[j].0;
        let entry = &older.files[j].1;
        match lookup_entry(&newer.files, path.as_str()) {
            None => {
                assert(absent_pred(nv)(ov[j as int]));
                removed.push(path.clone());
                removed_size = arith::sat_add_u64(removed_size, entry.size);
                proof {
                    assert(seq_filter(ov.take(j as int + 1), absent_pred(nv)) =~= rempre.push(
                        ov[j as int],
                    ));
                    assert(rempre.push(ov[j as int]).drop_last() =~= rempre);
                    assert(removed@.last()@ == ov[j as int].0);
                }
            },
            Some(_) => {
                proof {
                    assert(!absent_pred(nv)(ov[j as int]));
                    assert(seq_filter(ov.take(j as int + 1), absent_pred(nv)) =~= rempre);
                }
            },
        }
        j = j + 1;
    }
    proof {
        assert(ov.take(m as int) =~= ov);
    }
    let d = SnapshotDiff { added, modified, removed, added_size, modified_size_delta, removed_size };
    proof {
        assert(d@.added =~= paths_of(diff_added(ov, nv)));
        assert(d@.modified =~= paths_of(diff_modified(ov, nv)));
        assert(d@.removed =~= paths_of(diff_removed(ov, nv)));
    }
    d
}

impl SnapshotDiff {
    /// Whether anything differs between the two snapshots.
    pub fn has_changes(&self) -> (r: bool)
        ensures
            r == (self@.added.len() > 0 || self@.modified.len() > 0 || self@.removed.len() > 0),
    {
        self.added.len() > 0 || self.modified.len() > 0 || self.removed.len() > 0
    }
}

/// A successful lookup names an actual entry of the map.
proof fn lemma_find_entry_index(files: Seq<(Seq<char>, FileEntryView)>, path: Seq<char>)
    requires
        find_entry(files, path) is Some,
    ensures
        exists|m: int|
            0 <= m < files.len() && #[trigger] files[m] == (path, find_entry(files, path)->0),
    decreases files.len(),
{
    if files.len() > 0 {
        if files[0].0 == path {
            assert(files[0] == (path, find_entry(files, path)->0));
        } else {
            lemma_find_entry_index(files.drop_first(), path);
            let m = choose|m: int|
                0 <= m < files.drop_first().len() && #[trigger] files.drop_first()[m] == (
                    path,
                    find_entry(files.drop_first(), path)->0,
                );
            assert(files[m + 1] == (path, find_entry(files, path)->0));
        }
    }
}

/// One direction of diff symmetry on the modified sets.
proof fn lemma_modified_subset(
    a: Seq<(Seq<char>, FileEntryView)>,
    b: Seq<(Seq<char>, FileEntryView)>,
    p: Seq<char>,
)
    requires
        crate::manifest::files_sorted(a),
        crate::manifest::files_sorted(b),
        paths_of(diff_modified(a, b)).contains(p),
    ensures
        paths_of(diff_modified(b, a)).contains(p),
{
    let k = choose|k: int|
        0 <= k < paths_of(diff_modified(a, b)).len() && paths_of(diff_modified(a, b))[k] == p;
    let pe = diff_modified(a, b)[k];
    strutil::lemma_seq_filter_membership(b, changed_pred(a));
    let j = choose|j: int| 0 <= j < b.len() && b[j] == pe;
    crate::backup::lemma_find_entry_self(b, j);
    let oe = find_entry(a, pe.0)->0;
    lemma_find_entry_index(a, pe.0);
    let m = choose|m: int| 0 <= m < a.len() && #[trigger] a[m] == (pe.0, oe);
    assert(changed_pred(b)(a[m])) by {
        assert(find_entry(b, pe.0) == Some(pe.1));
        assert(oe.hash != pe.1.hash);
    }
    strutil::lemma_seq_filter_keeps(a, changed_pred(b));
    let mm = choose|mm: int|
        0 <= mm < diff_modified(b, a).len() && diff_modified(b, a)[mm] == a[m];
    assert(paths_of(diff_modified(b, a))[mm] == p);
}

/// Diff symmetry: the paths added from `a` to `b` are exactly those
/// removed from `b` to `a`, and the modified paths coincide as sets.
pub proof fn lemma_diff_symmetry(
    a: Seq<(Seq<char>, FileEntryView)>,
    b: Seq<(Seq<char>, FileEntryView)>,
)
    requires
        crate::manifest::files_sorted(a),
        crate::manifest::files_sorted(b),
    ensures
        paths_of(diff_added(a, b)) == paths_of(diff_removed(b, a)),
        paths_of(diff_added(b, a)) == paths_of(diff_removed(a, b)),
        forall|p: Seq<char>|
            #[trigger] paths_of(diff_modified(a, b)).contains(p) <==> paths_of(
                diff_modified(b, a),
            ).contains(p),
{
    assert forall|p: Seq<char>| #[trigger] paths_of(diff_modified(a, b)).contains(p) implies paths_of(
        diff_modified(b, a),
    ).contains(p) by {
        lemma_modified_subset(a, b, p);
    }
    assert forall|p: Seq<char>| #[trigger] paths_of(diff_modified(b, a)).contains(p) implies paths_of(
        diff_modified(a, b),
    ).contains(p) by {
        lemma_modified_subset(b, a, p);
    }
    assert forall|p: Seq<char>| paths_of(diff_modified(a, b)).contains(p) implies #[trigger] paths_of(
        diff_modified(b, a),
    ).contains(p) by {
        lemma_modified_subset(a, b, p);
    }
}

/// An entry restores cleanly under verification: its blob is present, the
/// pipeline decodes it, and the decoded bytes hash back to the entry's
/// hash.
pub open spec fn entry_ok(
    pe: (Seq<char>, FileEntryView),
    blobs: Seq<(Seq<char>, Seq<u8>)>,
    comp: CompressionKind,
    encrypted: bool,
    pw: Option<Seq<char>>,
) -> bool {
    &&& find_blob(blobs, pe.1.hash) is Some
    &&& decode_pipeline(find_blob(blobs, pe.1.hash)->0, comp, encrypted, pw) is Some
    &&& blake3_hex(decode_pipeline(find_blob(blobs, pe.1.hash)->0, comp, encrypted, pw)->0)
        == pe.1.hash
}

/// When every entry restores cleanly, the verified restore succeeds and
/// returns, per entry, its path, the decoded content and the recorded
/// permissions.
pub proof fn lemma_restore_all_ok(
    es: Seq<(Seq<char>, FileEntryView)>,
    blobs: Seq<(Seq<char>, Seq<u8>)>,
    comp: CompressionKind,
    encrypted: bool,
    pw: Option<Seq<char>>,
)
    requires
        forall|j: int| 0 <= j < es.len() ==> entry_ok(#[trigger] es[j], blobs, comp, encrypted, pw),
    ensures
        restore_model(es, blobs, comp, encrypted, pw, true) is Ok,
        restore_model(es, blobs, comp, encrypted, pw, true)->Ok_0.len() == es.len(),
        forall|j: int|
            #![trigger es[j]]
            0 <= j < es.len() ==> {
                let out = restore_model(es, blobs, comp, encrypted, pw, true)->Ok_0;
                &&& out[j].path == es[j].0
                &&& out[j].content == decode_pipeline(
                    find_blob(blobs, es[j].1.hash)->0,
                    comp,
                    encrypted,
                    pw,
                )->0
                &&& out[j].permissions == es[j].1.permissions
            },
    decreases es.len(),
{
    if es.len() > 0 {
        assert(entry_ok(es[0], blobs, comp, encrypted, pw));
        assert(forall|j: int|
            0 <= j < es.drop_first().len() ==> (#[trigger] es.drop_first()[j]) == es[j + 1]);
        lemma_restore_all_ok(es.drop_first(), blobs, comp, encrypted, pw);
        let d = decode_pipeline(find_blob(blobs, es[0].1.hash)->0, comp, encrypted, pw)->0;
        let rest = restore_model(es.drop_first(), blobs, comp, encrypted, pw, true)->Ok_0;
        let out = restore_model(es, blobs, comp, encrypted, pw, true)->Ok_0;
        assert(out =~= seq![
            RestoredFileView { path: es[0].0, content: d, permissions: es[0].1.permissions },
        ] + rest);
        assert forall|j: int| #![trigger es[j]] 0 <= j < es.len() implies {
            &&& out[j].path == es[j].0
            &&& out[j].content == decode_pipeline(
                find_blob(blobs, es[j].1.hash)->0,
                comp,
                encrypted,
                pw,
            )->0
            &&& out[j].permissions == es[j].1.permissions
        } by {
            if j > 0 {
                assert(out[j] == rest[j - 1]);
                assert(es.drop_first()[j - 1] == es[j]);
            }
        }
    }
}

/// Integrity detection: when some entry does not restore cleanly — its
/// blob is missing, fails to decode, or decodes to bytes whose hash is not
/// the entry's — a verified restore of those entries aborts with an error.
/// Tampering with a stored blob after commit either breaks decoding or
/// changes the decoded bytes, whose hash then no longer matches the
/// manifest, so every observable tampering outcome is covered.
pub proof fn lemma_integrity_detection(
    es: Seq<(Seq<char>, FileEntryView)>,
    blobs: Seq<(Seq<char>, Seq<u8>)>,
    comp: CompressionKind,
    encrypted: bool,
    pw: Option<Seq<char>>,
    j: int,
)
    requires
        0 <= j < es.len(),
        !entry_ok(es[j], blobs, comp, encrypted, pw),
    ensures
        restore_model(es, blobs, comp, encrypted, pw, true) is Err,
    decreases es.len(),
{
    if j > 0 {
        if restore_model(es, blobs, comp, encrypted, pw, true) is Ok {
            assert(es.drop_first()[j - 1] == es[j]);
            lemma_integrity_detection(es.drop_first(), blobs, comp, encrypted, pw, j - 1);
        }
    }
}

/// The outputs of a roundtrip restore match the kept files: same count,
/// and the same paths, contents and permissions in both directions.
pub open spec fn round_trip_outputs(
    out: Seq<RestoredFileView>,
    kept: Seq<crate::backup::SourceFileView>,
) -> bool {
    &&& out.len() == kept.len()
    &&& (forall|j: int|
        0 <= j < out.len() ==> exists|i: int|
            {
                &&& 0 <= i < kept.len()
                &&& (#[trigger] out[j]).path == kept[i].path
                &&& out[j].content == kept[i].content
                &&& out[j].permissions == kept[i].permissions
            })
    &&& (forall|i: int|
        0 <= i < kept.len() ==> exists|j: int|
            {
                &&& 0 <= j < out.len()
                &&& (#[trigger] kept[i]).path == out[j].path
                &&& kept[i].content == out[j].content
                &&& kept[i].permissions == out[j].permissions
            })
}

/// Restore roundtrip: restoring, with verification and the same password,
/// a snapshot that a backup committed into a consistent pool returns
/// exactly the kept files — the same paths, the same contents, and the
/// recorded permissions.
///
/// The pool is consistent when every blob present before the backup
/// decodes, under the snapshot's parameters, to bytes carrying its hash;
/// a freshly initialized repository is trivially consistent, and a backup
/// into a consistent pool keeps it so.  Hash identity — equal hashes mean
/// equal content — is the content-addressing premise itself.
#[verifier::rlimit(60)]
pub proof fn lemma_restore_round_trip(
    kept: Seq<crate::backup::SourceFileView>,
    keys0: Set<Seq<char>>,
    snap: crate::manifest::SnapshotView,
    old_blobs: Seq<(Seq<char>, Seq<u8>)>,
    new_blobs: Seq<(Seq<char>, Seq<u8>)>,
    name: Seq<char>,
    source: Seq<char>,
    created_at: crate::manifest::Timestamp,
    comp: CompressionKind,
    level: int,
    enc: bool,
    pw: Option<Seq<char>>,
    duration_ms: u64,
)
    requires
        keys0 == crate::backup::pool_keys(old_blobs),
        crate::backup::snapshot_matches_backup(
            snap,
            kept,
            keys0,
            name,
            source,
            created_at,
            comp,
            level,
            enc,
            duration_ms,
        ),
        crate::backup::blobs_extended_by_backup(old_blobs, new_blobs, kept, comp, level, enc, pw),
        // every blob present before the backup decodes to bytes carrying its hash
        forall|q: Seq<char>|
            #[trigger] has_blob(old_blobs, q) ==> {
                &&& decode_pipeline(find_blob(old_blobs, q)->0, comp, enc, pw) is Some
                &&& blake3_hex(decode_pipeline(find_blob(old_blobs, q)->0, comp, enc, pw)->0) == q
            },
        // hash identity: equal hashes mean equal content
        forall|c1: Seq<u8>, c2: Seq<u8>|
            #[trigger] blake3_hex(c1) == #[trigger] blake3_hex(c2) ==> c1 == c2,
    ensures
        restore_model(snap.files, new_blobs, comp, enc, pw, true) is Ok,
        round_trip_outputs(restore_model(snap.files, new_blobs, comp, enc, pw, true)->Ok_0, kept),
{
    // every manifest entry restores cleanly and decodes to its file's content
    assert forall|j: int|
        0 <= j < snap.files.len() implies entry_ok(#[trigger] snap.files[j], new_blobs, comp, enc, pw)
        && exists|i: int|
        {
            &&& 0 <= i < kept.len()
            &&& (#[trigger] snap.files[j]).0 == kept[i].path
            &&& decode_pipeline(find_blob(new_blobs, snap.files[j].1.hash)->0, comp, enc, pw)
                == Some(kept[i].content)
            &&& snap.files[j].1.permissions == kept[i].permissions
        } by {
        let i = choose|i: int|
            0 <= i < kept.len() && (#[trigger] snap.files[j]).0 == kept[i].path;
        crate::backup::lemma_find_entry_self(snap.files, j);
        assert(find_entry(snap.files, kept[i].path) == Some(
            crate::backup::entry_model(
                kept[i],
                crate::backup::dedup_at(kept, i, keys0),
                comp,
                level,
                enc,
            ),
        ));
        let e = snap.files[j].1;
        assert(e.hash == blake3_hex(kept[i].content));
        assert(e.permissions == kept[i].permissions);
        assert(has_blob(new_blobs, e.hash));
        if has_blob(old_blobs, e.hash) {
            assert(find_blob(new_blobs, e.hash) == find_blob(old_blobs, e.hash));
            let c = decode_pipeline(find_blob(old_blobs, e.hash)->0, comp, enc, pw)->0;
            assert(blake3_hex(c) == e.hash);
            assert(c == kept[i].content);
        } else {
            let w = choose|w: int|
                {
                    &&& 0 <= w < kept.len()
                    &&& blake3_hex((#[trigger] kept[w]).content) == e.hash
                    &&& decode_pipeline(find_blob(new_blobs, e.hash)->0, comp, enc, pw) == Some(
                        kept[w].content,
                    )
                };
            assert(blake3_hex(kept[w].content) == blake3_hex(kept[i].content));
            assert(kept[w].content == kept[i].content);
        }
    }
    lemma_restore_all_ok(snap.files, new_blobs, comp, enc, pw);
    let out = restore_model(snap.files, new_blobs, comp, enc, pw, true)->Ok_0;
    assert forall|j: int| 0 <= j < out.len() implies exists|i: int|
        {
            &&& 0 <= i < kept.len()
            &&& (#[trigger] out[j]).path == kept[i].path
            &&& out[j].content == kept[i].content
            &&& out[j].permissions == kept[i].permissions
        } by {
        assert(0 <= j < snap.files.len());
        assert(entry_ok(snap.files[j], new_blobs, comp, enc, pw));
        let i = choose|i: int|
            {
                &&& 0 <= i < kept.len()
                &&& (#[trigger] snap.files[j]).0 == kept[i].path
                &&& decode_pipeline(find_blob(new_blobs, snap.files[j].1.hash)->0, comp, enc, pw)
                    == Some(kept[i].content)
                &&& snap.files[j].1.permissions == kept[i].permissions
            };
        assert(out[j].path == snap.files[j].0);
        assert(out[j].content == decode_pipeline(
            find_blob(new_blobs, snap.files[j].1.hash)->0,
            comp,
            enc,
            pw,
        )->0);
        assert(out[j].permissions == snap.files[j].1.permissions);
        assert(0 <= i < kept.len() && out[j].path == kept[i].path && out[j].content
            == kept[i].content && out[j].permissions == kept[i].permissions);
    }
    assert forall|i: int| 0 <= i < kept.len() implies exists|j: int|
        {
            &&& 0 <= j < out.len()
            &&& (#[trigger] kept[i]).path == out[j].path
            &&& kept[i].content == out[j].content
            &&& kept[i].permissions == out[j].permissions
        } by {
        assert(find_entry(snap.files, kept[i].path) == Some(
            crate::backup::entry_model(
                kept[i],
                crate::backup::dedup_at(kept, i, keys0),
                comp,
                level,
                enc,
            ),
        ));
        lemma_find_entry_at(snap.files, kept[i].path);
        let j = choose|j: int|
            0 <= j < snap.files.len() && (#[trigger] snap.files[j]).0 == kept[i].path
                && snap.files[j].1 == find_entry(snap.files, kept[i].path)->0;
        let w = choose|w: int|
            {
                &&& 0 <= w < kept.len()
                &&& (#[trigger] snap.files[j]).0 == kept[w].path
                &&& decode_pipeline(find_blob(new_blobs, snap.files[j].1.hash)->0, comp, enc, pw)
                    == Some(kept[w].content)
                &&& snap.files[j].1.permissions == kept[w].permissions
            };
        assert(out[j].path == kept[i].path);
        assert(out[j].content == kept[w].content);
        assert(blake3_hex(kept[w].content) == snap.files[j].1.hash);
        assert(snap.files[j].1.hash == blake3_hex(kept[i].content));
        assert(kept[w].content == kept[i].content);
        assert(out[j].permissions == kept[i].permissions);
    }
    assert(out.len() == kept.len());
    assert(round_trip_outputs(out, kept));
}

/// A successful lookup happens at some index holding that path and entry.
proof fn lemma_find_entry_at(files: Seq<(Seq<char>, FileEntryView)>, path: Seq<char>)
    requires
        find_entry(files, path) is Some,
    ensures
        exists|j: int|
            0 <= j < files.len() && (#[trigger] files[j]).0 == path && files[j].1 == find_entry(
                files,
                path,
            )->0,
    decreases files.len(),
{
    if files.len() > 0 {
        if files[0].0 == path {
        } else {
            lemma_find_entry_at(files.drop_first(), path);
            let j = choose|j: int|
                0 <= j < files.drop_first().len() && (#[trigger] files.drop_first()[j]).0 == path
                    && files.drop_first()[j].1 == find_entry(files.drop_first(), path)->0;
            assert(files[j + 1].0 == path && files[j + 1].1 == find_entry(files, path)->0);
        }
    }
}

/// If the first entry of the remainder fails with `er`, restoring up to
/// and including it fails with `er`.
proof fn lemma_step_err(
    selpre: Seq<(Seq<char>, FileEntryView)>,
    e: (Seq<char>, FileEntryView),
    blobs: Seq<(Seq<char>, Seq<u8>)>,
    comp: CompressionKind,
    encrypted: bool,
    pw: Option<Seq<char>>,
    verify: bool,
    er: RestoreOutcomeErr,
    prefix_ok: Seq<RestoredFileView>,
)
    requires
        restore_model(selpre, blobs, comp, encrypted, pw, verify) == Ok::<
            Seq<RestoredFileView>,
            RestoreOutcomeErr,
        >(prefix_ok),
        restore_model(seq![e], blobs, comp, encrypted, pw, verify) == Err::<
            Seq<RestoredFileView>,
            RestoreOutcomeErr,
        >(er),
    ensures
        restore_model(selpre.push(e), blobs, comp, encrypted, pw, verify) == Err::<
            Seq<RestoredFileView>,
            RestoreOutcomeErr,
        >(er),
{
    lemma_restore_model_concat(selpre, seq![e], blobs, comp, encrypted, pw, verify);
    assert(selpre.push(e) =~= selpre + seq![e]);
}

/// If restoring a selected prefix already fails, restoring the whole
/// selection fails the same way.
proof fn lemma_tail_err(
    selnew: Seq<(Seq<char>, FileEntryView)>,
    all: Seq<(Seq<char>, FileEntryView)>,
    i: int,
    sel_pred: spec_fn((Seq<char>, FileEntryView)) -> bool,
    blobs: Seq<(Seq<char>, Seq<u8>)>,
    comp: CompressionKind,
    encrypted: bool,
    pw: Option<Seq<char>>,
    verify: bool,
)
    requires
        0 <= i < all.len(),
        selnew == seq_filter(all.take(i + 1), sel_pred),
        restore_model(selnew, blobs, comp, encrypted, pw, verify) is Err,
    ensures
        restore_model(seq_filter(all, sel_pred), blobs, comp, encrypted, pw, verify)
            == restore_model(selnew, blobs, comp, encrypted, pw, verify),
{
    assert(all =~= all.take(i + 1) + all.skip(i + 1));
    strutil::lemma_seq_filter_concat(all.take(i + 1), all.skip(i + 1), sel_pred);
    lemma_restore_model_concat(
        selnew,
        seq_filter(all.skip(i + 1), sel_pred),
        blobs,
        comp,
        encrypted,
        pw,
        verify,
    );
}

} // verus!
