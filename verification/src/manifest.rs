//! Snapshot manifests and the in-memory repository model.
//!
//! A snapshot is an immutable record of one backup target at one point in
//! time: metadata, per-file entries keyed by source-relative path in
//! lexicographic order, and aggregate statistics.  A repository holds the
//! snapshots together with the content-addressed blob pool they reference.
//! Persistence of the repository directory happens outside the core; this
//! module carries the invariants — unique blob keys, unique snapshot
//! identifiers, sorted file maps, and every referenced blob resolvable.

use vstd::prelude::*;

verus! {

use vstd::string::*;
use crate::arith;
use crate::config::CompressionKind;
use crate::error::RepoError;
use crate::strutil;
use crate::strutil::{lex_lt, padded_dec};

/// A local calendar timestamp, second precision.
#[derive(Debug, Clone, Copy, PartialEq, Eq, Structural)]
pub struct Timestamp {
    pub year: u32,
    pub month: u32,
    pub day: u32,
    pub hour: u32,
    pub minute: u32,
    pub second: u32,
}

/// Chronological order on timestamps: lexicographic over the fields.
pub open spec fn ts_le(a: Timestamp, b: Timestamp) -> bool {
    if a.year != b.year {
        a.year < b.year
    } else if a.month != b.month {
        a.month < b.month
    } else if a.day != b.day {
        a.day < b.day
    } else if a.hour != b.hour {
        a.hour < b.hour
    } else if a.minute != b.minute {
        a.minute < b.minute
    } else {
        a.second <= b.second
    }
}

/// Strict chronological order on timestamps.
pub open spec fn ts_lt(a: Timestamp, b: Timestamp) -> bool {
    ts_le(a, b) && a != b
}

impl Timestamp {
    /// Compares two timestamps chronologically.
    pub fn le(&self, other: &Timestamp) -> (r: bool)
        ensures
            r == ts_le(*self, *other),
    {
        if self.year != other.year {
            self.year < other.year
        } else if self.month != other.month {
            self.month < other.month
        } else if self.day != other.day {
            self.day < other.day
        } else if self.hour != other.hour {
            self.hour < other.hour
        } else if self.minute != other.minute {
            self.minute < other.minute
        } else {
            self.second <= other.second
        }
    }

    /// Compares two timestamps strictly.
    pub fn lt(&self, other: &Timestamp) -> (r: bool)
        ensures
            r == ts_lt(*self, *other),
    {
        self.le(other) && !(self.year == other.year && self.month == other.month && self.day
            == other.day && self.hour == other.hour && self.minute == other.minute && self.second
            == other.second)
    }
}

/// Metadata for a single file within a snapshot.
#[derive(Debug)]
pub struct FileEntry {
    /// BLAKE3 content hash, the key into the blob store.
    pub hash: String,
    /// Original (uncompressed) file size in bytes.
    pub size: u64,
    /// Size of the stored blob after the pipeline; 0 when deduplicated.
    pub stored_size: u64,
    /// POSIX mode bits, absent on non-POSIX hosts.
    pub permissions: Option<u32>,
    /// Last modification time as seconds since the Unix epoch, 0 if unknown.
    pub modified: u64,
    /// Whether the blob was already present and was not stored again.
    pub deduplicated: bool,
}

/// The mathematical content of a [`FileEntry`].
pub ghost struct FileEntryView {
    pub hash: Seq<char>,
    pub size: u64,
    pub stored_size: u64,
    pub permissions: Option<u32>,
    pub modified: u64,
    pub deduplicated: bool,
}

impl View for FileEntry {
    type V = FileEntryView;

    open spec fn view(&self) -> FileEntryView {
        FileEntryView {
            hash: self.hash@,
            size: self.size,
            stored_size: self.stored_size,
            permissions: self.permissions,
            modified: self.modified,
            deduplicated: self.deduplicated,
        }
    }
}

/// Aggregate statistics for a snapshot.  Totals saturate at the 64-bit
/// maximum instead of overflowing.
#[derive(Debug, Clone, Copy, PartialEq, Eq, Structural)]
pub struct SnapshotStats {
    /// Total number of files in the snapshot.
    pub total_files: u64,
    /// Number of files whose content was newly stored.
    pub new_files: u64,
    /// Reserved; always 0 in this version.
    pub modified_files: u64,
    /// Number of files whose content was already present.
    pub unchanged_files: u64,
    /// Total plaintext size of all files.
    pub total_size: u64,
    /// Total size of newly stored blobs after the pipeline.
    pub stored_size: u64,
    /// Number of deduplicated blobs.
    pub deduplicated_blobs: u64,
    /// Backup duration in milliseconds.
    pub duration_ms: u64,
}

impl SnapshotStats {
    /// An all-zero statistics record.
    pub fn zero() -> (r: SnapshotStats)
        ensures
            r == zero_stats(),
    {
        SnapshotStats {
            total_files: 0,
            new_files: 0,
            modified_files: 0,
            unchanged_files: 0,
            total_size: 0,
            stored_size: 0,
            deduplicated_blobs: 0,
            duration_ms: 0,
        }
    }
}

/// The all-zero statistics record.
pub open spec fn zero_stats() -> SnapshotStats {
    SnapshotStats {
        total_files: 0,
        new_files: 0,
        modified_files: 0,
        unchanged_files: 0,
        total_size: 0,
        stored_size: 0,
        deduplicated_blobs: 0,
        duration_ms: 0,
    }
}

/// A complete snapshot of a backup target at a specific point in time.
#[derive(Debug)]
pub struct Snapshot {
    /// Unique snapshot identifier: timestamp plus target name.
    pub id: String,
    /// Name of the backup target.
    pub target_name: String,
    /// Source directory that was backed up.
    pub source_path: String,
    /// When the snapshot was created, in local time.
    pub created_at: Timestamp,
    /// Compression algorithm used for blobs newly stored by this snapshot.
    pub compression: CompressionKind,
    /// Whether blobs newly stored by this snapshot are encrypted.
    pub encrypted: bool,
    /// File entries keyed by source-relative path, in lexicographic order.
    pub files: Vec<(String, FileEntry)>,
    /// Summary statistics computed as entries are added.
    pub stats: SnapshotStats,
}

/// The mathematical content of a [`Snapshot`].
pub ghost struct SnapshotView {
    pub id: Seq<char>,
    pub target_name: Seq<char>,
    pub source_path: Seq<char>,
    pub created_at: Timestamp,
    pub compression: CompressionKind,
    pub encrypted: bool,
    pub files: Seq<(Seq<char>, FileEntryView)>,
    pub stats: SnapshotStats,
}

impl View for Snapshot {
    type V = SnapshotView;

    open spec fn view(&self) -> SnapshotView {
        SnapshotView {
            id: self.id@,
            target_name: self.target_name@,
            source_path: self.source_path@,
            created_at: self.created_at,
            compression: self.compression,
            encrypted: self.encrypted,
            files: Seq::new(self.files@.len(), |i: int| (self.files@[i].0@, self.files@[i].1@)),
            stats: self.stats,
        }
    }
}

/// The views of a sequence of path-entry pairs.
pub open spec fn entries_view(s: Seq<(String, FileEntry)>) -> Seq<(Seq<char>, FileEntryView)> {
    Seq::new(s.len(), |i: int| (s[i].0@, s[i].1@))
}

/// File entries are strictly sorted by path, so paths are unique.
pub open spec fn files_sorted(files: Seq<(Seq<char>, FileEntryView)>) -> bool {
    forall|i: int, j: int|
        0 <= i < j < files.len() ==> lex_lt((#[trigger] files[i]).0, (#[trigger] files[j]).0)
}

/// Looks a path up in a file map: the first entry with that path, if any.
pub open spec fn find_entry(
    files: Seq<(Seq<char>, FileEntryView)>,
    path: Seq<char>,
) -> Option<FileEntryView>
    decreases files.len(),
{
    if files.len() == 0 {
        Option::<FileEntryView>::None
    } else if files[0].0 == path {
        Some(files[0].1)
    } else {
        find_entry(files.drop_first(), path)
    }
}

/// If the first entry under `path` is at `k`, lookup yields it.
pub proof fn lemma_find_entry_first(
    files: Seq<(Seq<char>, FileEntryView)>,
    path: Seq<char>,
    k: int,
)
    requires
        0 <= k < files.len(),
        files[k].0 == path,
        forall|j: int| 0 <= j < k ==> (#[trigger] files[j]).0 != path,
    ensures
        find_entry(files, path) == Some(files[k].1),
    decreases k,
{
    if k > 0 {
        assert(files.drop_first()[k - 1] == files[k]);
        assert(forall|j: int|
            0 <= j < k - 1 ==> (#[trigger] files.drop_first()[j]) == files[j + 1]);
        lemma_find_entry_first(files.drop_first(), path, k - 1);
    }
}

/// If no entry carries `path`, lookup yields nothing.
pub proof fn lemma_find_entry_none(files: Seq<(Seq<char>, FileEntryView)>, path: Seq<char>)
    requires
        forall|j: int| 0 <= j < files.len() ==> (#[trigger] files[j]).0 != path,
    ensures
        find_entry(files, path) is None,
    decreases files.len(),
{
    if files.len() > 0 {
        assert(forall|j: int|
            0 <= j < files.drop_first().len() ==> (#[trigger] files.drop_first()[j]) == files[j
                + 1]);
        lemma_find_entry_none(files.drop_first(), path);
    }
}

/// Inserts an entry into a sorted file map, keeping the order; an entry
/// with the same path is replaced.
pub open spec fn insert_entry(
    files: Seq<(Seq<char>, FileEntryView)>,
    path: Seq<char>,
    e: FileEntryView,
) -> Seq<(Seq<char>, FileEntryView)>
    decreases files.len(),
{
    if files.len() == 0 {
        seq![(path, e)]
    } else if lex_lt(path, files[0].0) {
        seq![(path, e)] + files
    } else if path == files[0].0 {
        seq![(path, e)] + files.drop_first()
    } else {
        seq![files[0]] + insert_entry(files.drop_first(), path, e)
    }
}

/// After an insert, looking up the inserted path yields the new entry and
/// every other path is unchanged.
pub proof fn lemma_insert_entry_find(
    files: Seq<(Seq<char>, FileEntryView)>,
    path: Seq<char>,
    e: FileEntryView,
    q: Seq<char>,
)
    ensures
        find_entry(insert_entry(files, path, e), q) == if q == path {
            Some(e)
        } else {
            find_entry(files, q)
        },
    decreases files.len(),
{
    strutil::lemma_lex_irrefl(path);
    let ins = insert_entry(files, path, e);
    if files.len() == 0 {
        assert(ins == seq![(path, e)]);
        assert(ins[0] == (path, e));
        assert(ins.drop_first() =~= Seq::<(Seq<char>, FileEntryView)>::empty());
        assert(find_entry(Seq::<(Seq<char>, FileEntryView)>::empty(), q) is None);
    } else {
        if lex_lt(path, files[0].0) {
            assert(ins == seq![(path, e)] + files);
            assert(ins[0] == (path, e));
            assert(ins.drop_first() =~= files);
        } else if path == files[0].0 {
            assert(ins == seq![(path, e)] + files.drop_first());
            assert(ins[0] == (path, e));
            assert(ins.drop_first() =~= files.drop_first());
            if q != path {
                assert(find_entry(files, q) == find_entry(files.drop_first(), q));
            }
        } else {
            lemma_insert_entry_find(files.drop_first(), path, e, q);
            assert(ins == seq![files[0]] + insert_entry(files.drop_first(), path, e));
            assert(ins.drop_first() =~= insert_entry(files.drop_first(), path, e));
            assert(ins[0] == files[0]);
        }
    }
}

/// Inserting into a sorted file map keeps it sorted.
pub proof fn lemma_insert_entry_sorted(
    files: Seq<(Seq<char>, FileEntryView)>,
    path: Seq<char>,
    e: FileEntryView,
)
    requires
        files_sorted(files),
    ensures
        files_sorted(insert_entry(files, path, e)),
    decreases files.len(),
{
    let ins = insert_entry(files, path, e);
    if files.len() == 0 {
    } else if lex_lt(path, files[0].0) {
        assert forall|i: int, j: int| 0 <= i < j < ins.len() implies lex_lt(
            (#[trigger] ins[i]).0,
            (#[trigger] ins[j]).0,
        ) by {
            if i == 0 {
                if j > 1 {
                    strutil::lemma_lex_trans(path, files[0].0, files[j - 1].0);
                }
            }
        }
    } else if path == files[0].0 {
        assert forall|i: int, j: int| 0 <= i < j < ins.len() implies lex_lt(
            (#[trigger] ins[i]).0,
            (#[trigger] ins[j]).0,
        ) by {
            if i == 0 {
                assert(ins[j] == files.drop_first()[j - 1]);
                assert(files.drop_first()[j - 1] == files[j]);
            }
        }
    } else {
        strutil::lemma_lex_connected(path, files[0].0);
        assert(lex_lt(files[0].0, path));
        assert(files_sorted(files.drop_first())) by {
            assert(forall|i: int, j: int|
                0 <= i < j < files.drop_first().len() ==> files.drop_first()[i]
                    == files[i + 1] && files.drop_first()[j] == files[j + 1]);
        }
        lemma_insert_entry_sorted(files.drop_first(), path, e);
        let tail = insert_entry(files.drop_first(), path, e);
        // every path in the inserted tail is either `path` or from the tail,
        // and both come strictly after files[0].0
        lemma_insert_entry_members(files.drop_first(), path, e);
        assert forall|i: int, j: int| 0 <= i < j < ins.len() implies lex_lt(
            (#[trigger] ins[i]).0,
            (#[trigger] ins[j]).0,
        ) by {
            if i == 0 {
                assert(ins[j] == tail[j - 1]);
                if tail[j - 1].0 == path {
                } else {
                    let k = choose|k: int|
                        0 <= k < files.drop_first().len() && files.drop_first()[k]
                            == #[trigger] tail[j - 1];
                    assert(files.drop_first()[k] == files[k + 1]);
                    assert(lex_lt(files[0].0, files[k + 1].0));
                }
            } else {
                assert(ins[i] == tail[i - 1] && ins[j] == tail[j - 1]);
            }
        }
    }
}

/// Every element of an inserted map is the new entry or one of the old ones.
pub proof fn lemma_insert_entry_members(
    files: Seq<(Seq<char>, FileEntryView)>,
    path: Seq<char>,
    e: FileEntryView,
)
    ensures
        forall|i: int|
            0 <= i < insert_entry(files, path, e).len() ==> (#[trigger] insert_entry(
                files,
                path,
                e,
            )[i]) == (path, e) || exists|k: int|
                0 <= k < files.len() && files[k] == insert_entry(files, path, e)[i],
    decreases files.len(),
{
    let ins = insert_entry(files, path, e);
    if files.len() == 0 {
    } else if lex_lt(path, files[0].0) {
    } else if path == files[0].0 {
        assert forall|i: int| 0 <= i < ins.len() implies (#[trigger] ins[i]) == (path, e) || exists|
            k: int,
        | 0 <= k < files.len() && files[k] == ins[i] by {
            if i > 0 {
                assert(ins[i] == files.drop_first()[i - 1]);
                assert(files[i] == ins[i]);
            }
        }
    } else {
        lemma_insert_entry_members(files.drop_first(), path, e);
        let tail = insert_entry(files.drop_first(), path, e);
        assert forall|i: int| 0 <= i < ins.len() implies (#[trigger] ins[i]) == (path, e) || exists|
            k: int,
        | 0 <= k < files.len() && files[k] == ins[i] by {
            if i == 0 {
                assert(ins[0] == files[0]);
            } else {
                assert(ins[i] == tail[i - 1]);
                if tail[i - 1] == (path, e) {
                } else {
                    let k = choose|k: int|
                        0 <= k < files.drop_first().len() && files.drop_first()[k] == #[trigger] tail[i
                            - 1];
                    assert(files[k + 1] == tail[i - 1]);
                }
            }
        }
    }
}

/// The identifier of a snapshot taken at `t` for target `name`.
pub open spec fn id_of(t: Timestamp, name: Seq<char>) -> Seq<char> {
    padded_dec(t.year as nat, 4) + padded_dec(t.month as nat, 2) + padded_dec(t.day as nat, 2)
        + seq!['-'] + padded_dec(t.hour as nat, 2) + padded_dec(t.minute as nat, 2) + padded_dec(
        t.second as nat,
        2,
    ) + seq!['-'] + name
}

impl Snapshot {
    /// Generates a snapshot identifier from a timestamp and target name.
    pub fn generate_id(created_at: &Timestamp, target_name: &str) -> (r: String)
        ensures
            r@ == id_of(*created_at, target_name@),
    {
        proof {
            reveal_strlit("-");
        }
        let mut s = strutil::u64_to_dec_padded(created_at.year as u64, 4);
        let part = strutil::u64_to_dec_padded(created_at.month as u64, 2);
        s.append(part.as_str());
        let part = strutil::u64_to_dec_padded(created_at.day as u64, 2);
        s.append(part.as_str());
        s.append("-");
        let part = strutil::u64_to_dec_padded(created_at.hour as u64, 2);
        s.append(part.as_str());
        let part = strutil::u64_to_dec_padded(created_at.minute as u64, 2);
        s.append(part.as_str());
        let part = strutil::u64_to_dec_padded(created_at.second as u64, 2);
        s.append(part.as_str());
        s.append("-");
        s.append(target_name);
        s
    }

    /// Creates a new empty snapshot taken at `created_at`.
    pub fn new(
        target_name: &str,
        source_path: String,
        compression: CompressionKind,
        encrypted: bool,
        created_at: Timestamp,
    ) -> (r: Snapshot)
        ensures
            r@.id == id_of(created_at, target_name@),
            r@.target_name == target_name@,
            r@.source_path == source_path@,
            r@.created_at == created_at,
            r@.compression == compression,
            r@.encrypted == encrypted,
            r@.files =~= Seq::<(Seq<char>, FileEntryView)>::empty(),
            r@.stats == zero_stats(),
    {
        Snapshot {
            id: Snapshot::generate_id(&created_at, target_name),
            target_name: target_name.to_owned(),
            source_path,
            created_at,
            compression,
            encrypted,
            files: Vec::new(),
            stats: SnapshotStats::zero(),
        }
    }

    /// Adds a file entry, keeping the file map sorted by path and updating
    /// the statistics: an entry counts toward the totals, deduplicated
    /// entries toward the deduplication counters, freshly stored ones
    /// toward the stored size.  An entry under an existing path replaces
    /// the old one (and is still counted, as a caller never passes
    /// duplicate paths during one backup).
    pub fn add_file(&mut self, relative_path: String, entry: FileEntry)
        requires
            files_sorted(old(self)@.files),
        ensures
            final(self)@.files == insert_entry(old(self)@.files, relative_path@, entry@),
            files_sorted(final(self)@.files),
            final(self)@.stats == add_file_stats(old(self)@.stats, entry@),
            final(self)@.id == old(self)@.id,
            final(self)@.target_name == old(self)@.target_name,
            final(self)@.source_path == old(self)@.source_path,
            final(self)@.created_at == old(self)@.created_at,
            final(self)@.compression == old(self)@.compression,
            final(self)@.encrypted == old(self)@.encrypted,
    {
        self.stats.total_files = arith::sat_add_u64(self.stats.total_files, 1);
        self.stats.total_size = arith::sat_add_u64(self.stats.total_size, entry.size);
        if entry.deduplicated {
            self.stats.deduplicated_blobs = arith::sat_add_u64(self.stats.deduplicated_blobs, 1);
            self.stats.unchanged_files = arith::sat_add_u64(self.stats.unchanged_files, 1);
        } else {
            self.stats.stored_size = arith::sat_add_u64(self.stats.stored_size, entry.stored_size);
            self.stats.new_files = arith::sat_add_u64(self.stats.new_files, 1);
        }
        let ghost old_files = self@.files;
        let n = self.files.len();
        let mut k: usize = 0;
        while k < n && strutil::str_lt(self.files[k].0.as_str(), relative_path.as_str())
            invariant
                0 <= k <= n,
                n == self.files@.len(),
                old_files == self@.files,
                forall|i: int| 0 <= i < k ==> lex_lt((#[trigger] self@.files[i]).0, relative_path@),
            decreases n - k,
        {
            k = k + 1;
        }
        proof {
            lemma_insert_entry_at(old_files, relative_path@, entry@, k as int);
            lemma_insert_entry_sorted(old_files, relative_path@, entry@);
        }
        if k < self.files.len() && strutil::str_eq(
            self.files[k].0.as_str(),
            relative_path.as_str(),
        ) {
            self.files.set(k, (relative_path, entry));
            proof {
                assert(self@.files =~= old_files.take(k as int) + seq![
                    (relative_path@, entry@),
                ] + old_files.skip(k as int + 1));
            }
        } else {
            self.files.insert(k, (relative_path, entry));
            proof {
                assert(self@.files =~= old_files.take(k as int) + seq![
                    (relative_path@, entry@),
                ] + old_files.skip(k as int));
            }
        }
    }
}

/// How one added entry changes the statistics.
pub open spec fn add_file_stats(s: SnapshotStats, e: FileEntryView) -> SnapshotStats {
    SnapshotStats {
        total_files: arith::sat_add(s.total_files, 1),
        total_size: arith::sat_add(s.total_size, e.size),
        deduplicated_blobs: if e.deduplicated {
            arith::sat_add(s.deduplicated_blobs, 1)
        } else {
            s.deduplicated_blobs
        },
        unchanged_files: if e.deduplicated {
            arith::sat_add(s.unchanged_files, 1)
        } else {
            s.unchanged_files
        },
        stored_size: if e.deduplicated {
            s.stored_size
        } else {
            arith::sat_add(s.stored_size, e.stored_size)
        },
        new_files: if e.deduplicated {
            s.new_files
        } else {
            arith::sat_add(s.new_files, 1)
        },
        modified_files: s.modified_files,
        duration_ms: s.duration_ms,
    }
}

/// Where an insert lands in a sorted map: after the strictly smaller
/// prefix, replacing an equal path if one is there.
proof fn lemma_insert_entry_at(
    files: Seq<(Seq<char>, FileEntryView)>,
    path: Seq<char>,
    e: FileEntryView,
    k: int,
)
    requires
        0 <= k <= files.len(),
        forall|i: int| 0 <= i < k ==> lex_lt((#[trigger] files[i]).0, path),
        k < files.len() ==> !lex_lt(files[k].0, path),
    ensures
        insert_entry(files, path, e) == if k < files.len() && files[k].0 == path {
            files.take(k) + seq![(path, e)] + files.skip(k + 1)
        } else {
            files.take(k) + seq![(path, e)] + files.skip(k)
        },
    decreases k,
{
    if k == 0 {
        if files.len() == 0 {
            assert(insert_entry(files, path, e) =~= files.take(0) + seq![(path, e)] + files.skip(
                0,
            ));
        } else if files[0].0 == path {
            strutil::lemma_lex_irrefl(path);
            assert(insert_entry(files, path, e) == seq![(path, e)] + files.drop_first());
            assert(seq![(path, e)] + files.drop_first() =~= files.take(0) + seq![(path, e)]
                + files.skip(1));
        } else {
            strutil::lemma_lex_connected(path, files[0].0);
            assert(lex_lt(path, files[0].0));
            assert(insert_entry(files, path, e) =~= files.take(0) + seq![(path, e)] + files.skip(
                0,
            ));
        }
    } else {
        assert(lex_lt(files[0].0, path));
        strutil::lemma_lex_irrefl(files[0].0);
        assert(files[0].0 != path);
        assert(!lex_lt(path, files[0].0)) by {
            strutil::lemma_lex_trans(path, files[0].0, path);
            strutil::lemma_lex_irrefl(path);
        }
        let tail = files.drop_first();
        assert(forall|i: int| 0 <= i < k - 1 ==> (#[trigger] tail[i]) == files[i + 1]);
        lemma_insert_entry_at(tail, path, e, k - 1);
        if k < files.len() && files[k].0 == path {
            assert(tail[k - 1] == files[k]);
            assert(seq![files[0]] + (tail.take(k - 1) + seq![(path, e)] + tail.skip(k))
                =~= files.take(k) + seq![(path, e)] + files.skip(k + 1));
        } else {
            assert(seq![files[0]] + (tail.take(k - 1) + seq![(path, e)] + tail.skip(k - 1))
                =~= files.take(k) + seq![(path, e)] + files.skip(k));
        }
    }
}

impl Clone for FileEntry {
    /// Clones the entry; the copy has the same content.
    fn clone(&self) -> (r: Self)
        ensures
            r@ == self@,
    {
        FileEntry {
            hash: self.hash.clone(),
            size: self.size,
            stored_size: self.stored_size,
            permissions: self.permissions,
            modified: self.modified,
            deduplicated: self.deduplicated,
        }
    }
}

/// Clones a file map; the copy views to the same sequence.
fn clone_files(files: &Vec<(String, FileEntry)>) -> (r: Vec<(String, FileEntry)>)
    ensures
        r@.len() == files@.len(),
        forall|i: int|
            0 <= i < files@.len() ==> (#[trigger] r@[i]).0@ == files@[i].0@ && r@[i].1@
                == files@[i].1@,
{
    let mut out: Vec<(String, FileEntry)> = Vec::new();
    let n = files.len();
    let mut i: usize = 0;
    while i < n
        invariant
            0 <= i <= n,
            n == files@.len(),
            out@.len() == i,
            forall|j: int|
                0 <= j < i ==> (#[trigger] out@[j]).0@ == files@[j].0@ && out@[j].1@
                    == files@[j].1@,
        decreases n - i,
    {
        let pair = (files[i].0.clone(), files[i].1.clone());
        out.push(pair);
        i = i + 1;
    }
    out
}

impl Clone for Snapshot {
    /// Clones the snapshot; the copy has the same mathematical content.
    fn clone(&self) -> (r: Self)
        ensures
            r@ == self@,
    {
        let r = Snapshot {
            id: self.id.clone(),
            target_name: self.target_name.clone(),
            source_path: self.source_path.clone(),
            created_at: self.created_at,
            compression: self.compression,
            encrypted: self.encrypted,
            files: clone_files(&self.files),
            stats: self.stats,
        };
        proof {
            assert(r@.files =~= self@.files);
        }
        r
    }
}

/// An in-memory repository: the snapshots and the content-addressed blob
/// pool they reference.  The repository directory on disk is loaded into
/// and persisted from this value outside the core.
#[derive(Debug)]
pub struct Repository {
    /// All snapshot manifests, in no particular order.
    pub snapshots: Vec<Snapshot>,
    /// The blob pool: stored bytes keyed by content hash.
    pub blobs: Vec<(String, Vec<u8>)>,
}

/// The mathematical content of a [`Repository`].
pub ghost struct RepositoryView {
    pub snapshots: Seq<SnapshotView>,
    pub blobs: Seq<(Seq<char>, Seq<u8>)>,
}

impl View for Repository {
    type V = RepositoryView;

    open spec fn view(&self) -> RepositoryView {
        RepositoryView {
            snapshots: Seq::new(self.snapshots@.len(), |i: int| self.snapshots@[i]@),
            blobs: Seq::new(self.blobs@.len(), |i: int| (self.blobs@[i].0@, self.blobs@[i].1@)),
        }
    }
}

/// Looks a hash up in the blob pool: the first blob stored under it, if any.
pub open spec fn find_blob(blobs: Seq<(Seq<char>, Seq<u8>)>, hash: Seq<char>) -> Option<Seq<u8>>
    decreases blobs.len(),
{
    if blobs.len() == 0 {
        Option::<Seq<u8>>::None
    } else if blobs[0].0 == hash {
        Some(blobs[0].1)
    } else {
        find_blob(blobs.drop_first(), hash)
    }
}

/// Whether the pool holds a blob under `hash`.
pub open spec fn has_blob(blobs: Seq<(Seq<char>, Seq<u8>)>, hash: Seq<char>) -> bool {
    find_blob(blobs, hash) is Some
}

/// A snapshot references `h` through some file entry.
pub open spec fn snap_has_hash(s: SnapshotView, h: Seq<char>) -> bool {
    exists|j: int| 0 <= j < s.files.len() && (#[trigger] s.files[j]).1.hash == h
}

/// Well-formedness of a repository: blob keys are unique, snapshot
/// identifiers are unique, every file map is sorted, and every referenced
/// blob resolves.
pub open spec fn repo_wf(r: RepositoryView) -> bool {
    &&& forall|i: int, j: int|
        0 <= i < j < r.blobs.len() ==> (#[trigger] r.blobs[i]).0 != (#[trigger] r.blobs[j]).0
    &&& forall|i: int, j: int|
        0 <= i < j < r.snapshots.len() ==> (#[trigger] r.snapshots[i]).id
            != (#[trigger] r.snapshots[j]).id
    &&& forall|i: int| 0 <= i < r.snapshots.len() ==> files_sorted((#[trigger] r.snapshots[i]).files)
    &&& forall|i: int, j: int|
        0 <= i < r.snapshots.len() && 0 <= j < (#[trigger] r.snapshots[i]).files.len() ==> has_blob(
            r.blobs,
            (#[trigger] r.snapshots[i].files[j]).1.hash,
        )
}

/// If the first occurrence of `hash` in the pool is at `k`, lookup yields
/// the blob stored there.
pub proof fn lemma_find_blob_first(blobs: Seq<(Seq<char>, Seq<u8>)>, hash: Seq<char>, k: int)
    requires
        0 <= k < blobs.len(),
        blobs[k].0 == hash,
        forall|j: int| 0 <= j < k ==> (#[trigger] blobs[j]).0 != hash,
    ensures
        find_blob(blobs, hash) == Some(blobs[k].1),
    decreases k,
{
    if k > 0 {
        assert(blobs.drop_first()[k - 1] == blobs[k]);
        assert(forall|j: int|
            0 <= j < k - 1 ==> (#[trigger] blobs.drop_first()[j]) == blobs[j + 1]);
        lemma_find_blob_first(blobs.drop_first(), hash, k - 1);
    }
}

/// If no blob key equals `hash`, lookup yields nothing.
pub proof fn lemma_find_blob_none(blobs: Seq<(Seq<char>, Seq<u8>)>, hash: Seq<char>)
    requires
        forall|j: int| 0 <= j < blobs.len() ==> (#[trigger] blobs[j]).0 != hash,
    ensures
        find_blob(blobs, hash) is None,
    decreases blobs.len(),
{
    if blobs.len() > 0 {
        assert(forall|j: int|
            0 <= j < blobs.drop_first().len() ==> (#[trigger] blobs.drop_first()[j]) == blobs[j
                + 1]);
        lemma_find_blob_none(blobs.drop_first(), hash);
    }
}

/// Appending a blob at the end changes lookups only for hashes that were
/// absent before.
pub proof fn lemma_find_blob_append(
    blobs: Seq<(Seq<char>, Seq<u8>)>,
    h: Seq<char>,
    d: Seq<u8>,
    q: Seq<char>,
)
    ensures
        find_blob(blobs.push((h, d)), q) == if find_blob(blobs, q) is Some {
            find_blob(blobs, q)
        } else if q == h {
            Some(d)
        } else {
            Option::<Seq<u8>>::None
        },
    decreases blobs.len(),
{
    let pushed = blobs.push((h, d));
    if blobs.len() == 0 {
        assert(pushed[0] == (h, d));
        assert(pushed.drop_first() =~= Seq::<(Seq<char>, Seq<u8>)>::empty());
        assert(find_blob(Seq::<(Seq<char>, Seq<u8>)>::empty(), q) is None);
    } else {
        assert(pushed[0] == blobs[0]);
        assert(pushed.drop_first() =~= blobs.drop_first().push((h, d)));
        lemma_find_blob_append(blobs.drop_first(), h, d, q);
    }
}

/// Replacing the blob at the first occurrence of its key changes lookups
/// only for that key.
pub proof fn lemma_find_blob_update(
    blobs: Seq<(Seq<char>, Seq<u8>)>,
    i: int,
    d: Seq<u8>,
    q: Seq<char>,
)
    requires
        0 <= i < blobs.len(),
        forall|j: int| 0 <= j < i ==> (#[trigger] blobs[j]).0 != blobs[i].0,
    ensures
        find_blob(blobs.update(i, (blobs[i].0, d)), q) == if q == blobs[i].0 {
            Some(d)
        } else {
            find_blob(blobs, q)
        },
    decreases i,
{
    let upd = blobs.update(i, (blobs[i].0, d));
    if i == 0 {
        assert(upd[0] == (blobs[0].0, d));
        assert(upd.drop_first() =~= blobs.drop_first());
    } else {
        assert(upd[0] == blobs[0]);
        assert(upd.drop_first() =~= blobs.drop_first().update(i - 1, (blobs[i].0, d)));
        assert(blobs.drop_first()[i - 1] == blobs[i]);
        assert(forall|j: int|
            0 <= j < i - 1 ==> (#[trigger] blobs.drop_first()[j]) == blobs[j + 1]);
        lemma_find_blob_update(blobs.drop_first(), i - 1, d, q);
    }
}

impl Repository {
    /// An empty, well-formed repository.
    pub fn new() -> (r: Repository)
        ensures
            r@.snapshots =~= Seq::<SnapshotView>::empty(),
            r@.blobs =~= Seq::<(Seq<char>, Seq<u8>)>::empty(),
            repo_wf(r@),
    {
        Repository { snapshots: Vec::new(), blobs: Vec::new() }
    }

    /// The number of blobs in the pool.
    pub fn blob_count(&self) -> (r: usize)
        ensures
            r == self@.blobs.len(),
    {
        self.blobs.len()
    }

    /// Checks whether a blob with the given hash exists in the pool.
    pub fn blob_exists(&self, hash: &str) -> (r: bool)
        ensures
            r == has_blob(self@.blobs, hash@),
    {
        let n = self.blobs.len();
        let mut i: usize = 0;
        while i < n
            invariant
                0 <= i <= n,
                n == self@.blobs.len(),
                forall|j: int| 0 <= j < i ==> (#[trigger] self@.blobs[j]).0 != hash@,
            decreases n - i,
        {
            if strutil::str_eq(self.blobs[i].0.as_str(), hash) {
                proof {
                    lemma_find_blob_first(self@.blobs, hash@, i as int);
                }
                return true;
            }
            i = i + 1;
        }
        proof {
            lemma_find_blob_none(self@.blobs, hash@);
        }
        false
    }

    /// Reads the blob stored under `hash`, if any.
    pub fn read_blob(&self, hash: &str) -> (r: Option<Vec<u8>>)
        ensures
            match r {
                Some(v) => find_blob(self@.blobs, hash@) == Some(v@),
                None => !has_blob(self@.blobs, hash@),
            },
    {
        let n = self.blobs.len();
        let mut i: usize = 0;
        while i < n
            invariant
                0 <= i <= n,
                n == self@.blobs.len(),
                forall|j: int| 0 <= j < i ==> (#[trigger] self@.blobs[j]).0 != hash@,
            decreases n - i,
        {
            if strutil::str_eq(self.blobs[i].0.as_str(), hash) {
                proof {
                    lemma_find_blob_first(self@.blobs, hash@, i as int);
                }
                return Some(self.blobs[i].1.clone());
            }
            i = i + 1;
        }
        proof {
            lemma_find_blob_none(self@.blobs, hash@);
        }
        None
    }

    /// Stores `data` under `hash` in the blob pool.  A blob already stored
    /// under the same hash is replaced; content addressing makes the
    /// operation idempotent, as equal hashes mean equal content.
    pub fn store_blob(&mut self, hash: String, data: Vec<u8>)
        requires
            repo_wf(old(self)@),
        ensures
            repo_wf(final(self)@),
            final(self)@.snapshots == old(self)@.snapshots,
            find_blob(final(self)@.blobs, hash@) == Some(data@),
            forall|q: Seq<char>|
                q != hash@ ==> #[trigger] find_blob(final(self)@.blobs, q) == find_blob(
                    old(self)@.blobs,
                    q,
                ),
            final(self)@.blobs.len() == old(self)@.blobs.len() + (if has_blob(
                old(self)@.blobs,
                hash@,
            ) {
                0int
            } else {
                1int
            }),
    {
        let ghost old_view = self@;
        let n = self.blobs.len();
        let mut i: usize = 0;
        while i < n
            invariant
                0 <= i <= n,
                n == self@.blobs.len(),
                self@ == old_view,
                old_view == old(self)@,
                repo_wf(old_view),
                forall|j: int| 0 <= j < i ==> (#[trigger] self@.blobs[j]).0 != hash@,
            decreases n - i,
        {
            if strutil::str_eq(self.blobs[i].0.as_str(), hash.as_str()) {
                proof {
                    lemma_find_blob_first(self@.blobs, hash@, i as int);
                }
                self.blobs.set(i, (hash, data));
                proof {
                    assert(self@.blobs =~= old_view.blobs.update(
                        i as int,
                        (old_view.blobs[i as int].0, data@),
                    ));
                    assert forall|q: Seq<char>| true implies #[trigger] find_blob(self@.blobs, q)
                        == (if q == hash@ {
                        Some(data@)
                    } else {
                        find_blob(old_view.blobs, q)
                    }) by {
                        lemma_find_blob_update(old_view.blobs, i as int, data@, q);
                    }
                    assert(repo_wf(self@)) by {
                        assert forall|a: int| 0 <= a < self@.blobs.len() implies (
                        #[trigger] self@.blobs[a]).0 == old_view.blobs[a].0 by {
                            if a != i as int {
                                assert(self@.blobs[a] == old_view.blobs[a]);
                            }
                        }
                        assert(forall|a: int, b: int|
                            0 <= a < b < self@.blobs.len() ==> (#[trigger] self@.blobs[a]).0
                                != (#[trigger] self@.blobs[b]).0);
                        assert forall|a: int, b: int|
                            0 <= a < self@.snapshots.len() && 0 <= b
                                < (#[trigger] self@.snapshots[a]).files.len() implies has_blob(
                            self@.blobs,
                            (#[trigger] self@.snapshots[a].files[b]).1.hash,
                        ) by {
                            let h = self@.snapshots[a].files[b].1.hash;
                            assert(has_blob(old_view.blobs, h));
                            if h != hash@ {
                                lemma_find_blob_update(old_view.blobs, i as int, data@, h);
                            }
                        }
                    }
                }
                return ;
            }
            i = i + 1;
        }
        proof {
            lemma_find_blob_none(self@.blobs, hash@);
        }
        self.blobs.push((hash, data));
        proof {
            assert(self@.blobs =~= old_view.blobs.push((hash@, data@)));
            assert forall|q: Seq<char>| true implies #[trigger] find_blob(self@.blobs, q) == (
            if q == hash@ {
                Some(data@)
            } else {
                find_blob(old_view.blobs, q)
            }) by {
                lemma_find_blob_append(old_view.blobs, hash@, data@, q);
            }
            assert(repo_wf(self@)) by {
                assert forall|a: int, b: int|
                    0 <= a < b < self@.blobs.len() implies (#[trigger] self@.blobs[a]).0
                    != (#[trigger] self@.blobs[b]).0 by {
                    if b == self@.blobs.len() - 1 {
                        assert(self@.blobs[a] == old_view.blobs[a]);
                        if old_view.blobs[a].0 == hash@ {
                            lemma_find_blob_first(old_view.blobs, hash@, a);
                        }
                    }
                }
                assert forall|a: int, b: int|
                    0 <= a < self@.snapshots.len() && 0 <= b
                        < (#[trigger] self@.snapshots[a]).files.len() implies has_blob(
                    self@.blobs,
                    (#[trigger] self@.snapshots[a].files[b]).1.hash,
                ) by {
                    let h = self@.snapshots[a].files[b].1.hash;
                    assert(has_blob(old_view.blobs, h));
                    lemma_find_blob_append(old_view.blobs, hash@, data@, h);
                }
            }
        }
    }
}

/// The views of a sequence of snapshots.
pub open spec fn snap_views(s: Seq<Snapshot>) -> Seq<SnapshotView> {
    Seq::new(s.len(), |i: int| s[i]@)
}

/// Snapshots ordered oldest first by creation time.
pub open spec fn time_sorted(s: Seq<SnapshotView>) -> bool {
    forall|i: int, j: int|
        0 <= i < j < s.len() ==> ts_le((#[trigger] s[i]).created_at, (#[trigger] s[j]).created_at)
}

/// Inserts a snapshot into a time-sorted sequence, after existing snapshots
/// with the same creation time, as a stable sort does.
pub open spec fn insert_by_time(sorted: Seq<SnapshotView>, s: SnapshotView) -> Seq<SnapshotView>
    decreases sorted.len(),
{
    if sorted.len() == 0 {
        seq![s]
    } else if ts_lt(s.created_at, sorted[0].created_at) {
        seq![s] + sorted
    } else {
        seq![sorted[0]] + insert_by_time(sorted.drop_first(), s)
    }
}

/// Sorts snapshots oldest first by creation time; a stable insertion sort.
pub open spec fn sort_by_time(snaps: Seq<SnapshotView>) -> Seq<SnapshotView>
    decreases snaps.len(),
{
    if snaps.len() == 0 {
        Seq::empty()
    } else {
        insert_by_time(sort_by_time(snaps.drop_last()), snaps.last())
    }
}

/// Chronological order is transitive.
pub proof fn lemma_ts_trans(a: Timestamp, b: Timestamp, c: Timestamp)
    ensures
        ts_le(a, b) && ts_le(b, c) ==> ts_le(a, c),
{
}

/// Where a timed insert lands: after the prefix of elements not strictly
/// later than the inserted one.
proof fn lemma_insert_by_time_at(sorted: Seq<SnapshotView>, s: SnapshotView, k: int)
    requires
        0 <= k <= sorted.len(),
        forall|i: int| 0 <= i < k ==> !ts_lt(s.created_at, (#[trigger] sorted[i]).created_at),
        k < sorted.len() ==> ts_lt(s.created_at, sorted[k].created_at),
    ensures
        insert_by_time(sorted, s) == sorted.take(k) + seq![s] + sorted.skip(k),
    decreases k,
{
    if k == 0 {
        if sorted.len() == 0 {
            assert(insert_by_time(sorted, s) =~= sorted.take(0) + seq![s] + sorted.skip(0));
        } else {
            assert(insert_by_time(sorted, s) =~= sorted.take(0) + seq![s] + sorted.skip(0));
        }
    } else {
        let tail = sorted.drop_first();
        assert(forall|i: int| 0 <= i < k - 1 ==> (#[trigger] tail[i]) == sorted[i + 1]);
        lemma_insert_by_time_at(tail, s, k - 1);
        assert(seq![sorted[0]] + (tail.take(k - 1) + seq![s] + tail.skip(k - 1)) =~= sorted.take(k)
            + seq![s] + sorted.skip(k));
    }
}

/// A timed insert into a sorted sequence stays sorted.
proof fn lemma_insert_by_time_sorted(sorted: Seq<SnapshotView>, s: SnapshotView)
    requires
        time_sorted(sorted),
    ensures
        time_sorted(insert_by_time(sorted, s)),
    decreases sorted.len(),
{
    let ins = insert_by_time(sorted, s);
    if sorted.len() == 0 {
    } else if ts_lt(s.created_at, sorted[0].created_at) {
        assert forall|i: int, j: int| 0 <= i < j < ins.len() implies ts_le(
            (#[trigger] ins[i]).created_at,
            (#[trigger] ins[j]).created_at,
        ) by {
            if i == 0 {
                assert(ins[j] == sorted[j - 1]);
                lemma_ts_trans(s.created_at, sorted[0].created_at, sorted[j - 1].created_at);
            }
        }
    } else {
        let tail = sorted.drop_first();
        assert(forall|i: int| 0 <= i < tail.len() ==> (#[trigger] tail[i]) == sorted[i + 1]);
        lemma_insert_by_time_sorted(tail, s);
        lemma_insert_by_time_members(tail, s);
        let ins_tail = insert_by_time(tail, s);
        assert forall|i: int, j: int| 0 <= i < j < ins.len() implies ts_le(
            (#[trigger] ins[i]).created_at,
            (#[trigger] ins[j]).created_at,
        ) by {
            if i == 0 {
                assert(ins[j] == ins_tail[j - 1]);
                if ins_tail[j - 1] == s {
                    assert(ts_le(sorted[0].created_at, s.created_at));
                } else {
                    let m = choose|m: int|
                        0 <= m < tail.len() && tail[m] == #[trigger] ins_tail[j - 1];
                    assert(ts_le(sorted[0].created_at, sorted[m + 1].created_at));
                }
            } else {
                assert(ins[i] == ins_tail[i - 1] && ins[j] == ins_tail[j - 1]);
            }
        }
    }
}

/// Every element of a timed insert is the inserted snapshot or one of the
/// sorted ones.
proof fn lemma_insert_by_time_members(sorted: Seq<SnapshotView>, s: SnapshotView)
    ensures
        forall|i: int|
            0 <= i < insert_by_time(sorted, s).len() ==> (#[trigger] insert_by_time(sorted, s)[i])
                == s || exists|k: int|
                0 <= k < sorted.len() && sorted[k] == insert_by_time(sorted, s)[i],
    decreases sorted.len(),
{
    let ins = insert_by_time(sorted, s);
    if sorted.len() == 0 {
    } else if ts_lt(s.created_at, sorted[0].created_at) {
        assert forall|i: int| 0 <= i < ins.len() implies (#[trigger] ins[i]) == s || exists|k: int|
            0 <= k < sorted.len() && sorted[k] == ins[i] by {
            if i > 0 {
                assert(sorted[i - 1] == ins[i]);
            }
        }
    } else {
        let tail = sorted.drop_first();
        lemma_insert_by_time_members(tail, s);
        let ins_tail = insert_by_time(tail, s);
        assert forall|i: int| 0 <= i < ins.len() implies (#[trigger] ins[i]) == s || exists|k: int|
            0 <= k < sorted.len() && sorted[k] == ins[i] by {
            if i == 0 {
                assert(sorted[0] == ins[0]);
            } else {
                assert(ins[i] == ins_tail[i - 1]);
                if ins_tail[i - 1] != s {
                    let k = choose|k: int|
                        0 <= k < tail.len() && tail[k] == #[trigger] ins_tail[i - 1];
                    assert(sorted[k + 1] == ins[i]);
                }
            }
        }
    }
}

/// The sorted sequence is sorted and holds the same snapshots.
pub proof fn lemma_sort_by_time_ensures(snaps: Seq<SnapshotView>)
    ensures
        time_sorted(sort_by_time(snaps)),
        sort_by_time(snaps).to_multiset() == snaps.to_multiset(),
        sort_by_time(snaps).len() == snaps.len(),
    decreases snaps.len(),
{
    broadcast use vstd::seq_lib::group_to_multiset_ensures;

    if snaps.len() > 0 {
        lemma_sort_by_time_ensures(snaps.drop_last());
        lemma_insert_by_time_sorted(sort_by_time(snaps.drop_last()), snaps.last());
        lemma_insert_by_time_multiset(sort_by_time(snaps.drop_last()), snaps.last());
        assert(snaps.drop_last().push(snaps.last()) =~= snaps);
    }
}

/// A timed insert adds exactly the inserted snapshot to the collection.
proof fn lemma_insert_by_time_multiset(sorted: Seq<SnapshotView>, s: SnapshotView)
    ensures
        insert_by_time(sorted, s).to_multiset() == sorted.to_multiset().insert(s),
        insert_by_time(sorted, s).len() == sorted.len() + 1,
    decreases sorted.len(),
{
    broadcast use vstd::seq_lib::group_to_multiset_ensures;

    let ins = insert_by_time(sorted, s);
    if sorted.len() == 0 {
        assert(ins =~= Seq::empty().push(s));
        assert(Seq::<SnapshotView>::empty().push(s).to_multiset()
            == Seq::<SnapshotView>::empty().to_multiset().insert(s));
    } else if ts_lt(s.created_at, sorted[0].created_at) {
        assert(ins =~= sorted.insert(0, s));
        vstd::seq_lib::to_multiset_insert(sorted, 0, s);
    } else {
        let tail = sorted.drop_first();
        lemma_insert_by_time_multiset(tail, s);
        assert(ins =~= insert_by_time(tail, s).insert(0, sorted[0]));
        vstd::seq_lib::to_multiset_insert(insert_by_time(tail, s), 0, sorted[0]);
        assert(sorted =~= tail.insert(0, sorted[0]));
        vstd::seq_lib::to_multiset_insert(tail, 0, sorted[0]);
        assert(ins.to_multiset() =~= sorted.to_multiset().insert(s));
    }
}

impl Repository {
    /// Saves a snapshot manifest, returning its file name in the snapshot
    /// directory.  A snapshot with the same identifier is overwritten, as
    /// two snapshots of one target within one second collide by design.
    pub fn save_snapshot(&mut self, snapshot: Snapshot) -> (r: String)
        requires
            repo_wf(old(self)@),
            files_sorted(snapshot@.files),
            forall|j: int|
                0 <= j < snapshot@.files.len() ==> has_blob(
                    old(self)@.blobs,
                    (#[trigger] snapshot@.files[j]).1.hash,
                ),
        ensures
            repo_wf(final(self)@),
            final(self)@.blobs == old(self)@.blobs,
            r@ == snapshot@.id + ".json"@,
            (forall|i: int|
                0 <= i < old(self)@.snapshots.len() ==> (#[trigger] old(self)@.snapshots[i]).id
                    != snapshot@.id) ==> final(self)@.snapshots == old(self)@.snapshots.push(
                snapshot@,
            ),
            (exists|i: int|
                0 <= i < old(self)@.snapshots.len() && (#[trigger] old(self)@.snapshots[i]).id
                    == snapshot@.id) ==> exists|i: int|
                0 <= i < old(self)@.snapshots.len() && (#[trigger] old(self)@.snapshots[i]).id
                    == snapshot@.id && final(self)@.snapshots == old(self)@.snapshots.update(
                    i,
                    snapshot@,
                ),
    {
        proof {
            reveal_strlit(".json");
        }
        let mut name = snapshot.id.clone();
        name.append(".json");
        let ghost old_view = self@;
        let ghost snap_view = snapshot@;
        let n = self.snapshots.len();
        let mut i: usize = 0;
        while i < n
            invariant
                0 <= i <= n,
                n == self@.snapshots.len(),
                self@ == old_view,
                old_view == old(self)@,
                repo_wf(old_view),
                snap_view == snapshot@,
                name@ == snap_view.id + ".json"@,
                files_sorted(snap_view.files),
                forall|j: int|
                    0 <= j < snap_view.files.len() ==> has_blob(
                        old_view.blobs,
                        (#[trigger] snap_view.files[j]).1.hash,
                    ),
                forall|j: int| 0 <= j < i ==> (#[trigger] self@.snapshots[j]).id != snap_view.id,
            decreases n - i,
        {
            if strutil::str_eq(self.snapshots[i].id.as_str(), snapshot.id.as_str()) {
                self.snapshots.set(i, snapshot);
                proof {
                    assert(self@.snapshots =~= old_view.snapshots.update(i as int, snap_view));
                    assert(self@.blobs =~= old_view.blobs);
                    assert(repo_wf(self@)) by {
                        assert forall|a: int, b: int|
                            0 <= a < b < self@.snapshots.len() implies (
                        #[trigger] self@.snapshots[a]).id != (#[trigger] self@.snapshots[b]).id by {
                            if a != i as int && b != i as int {
                                assert(self@.snapshots[a] == old_view.snapshots[a]);
                                assert(self@.snapshots[b] == old_view.snapshots[b]);
                            } else if a == i as int {
                                assert(self@.snapshots[b] == old_view.snapshots[b]);
                                assert(old_view.snapshots[b].id != snap_view.id);
                            } else {
                                assert(self@.snapshots[a] == old_view.snapshots[a]);
                                assert(old_view.snapshots[a].id != old_view.snapshots[i as int].id);
                            }
                        }
                        assert forall|a: int|
                            0 <= a < self@.snapshots.len() implies files_sorted(
                            (#[trigger] self@.snapshots[a]).files,
                        ) by {
                            if a != i as int {
                                assert(self@.snapshots[a] == old_view.snapshots[a]);
                            }
                        }
                        assert forall|a: int, b: int|
                            0 <= a < self@.snapshots.len() && 0 <= b
                                < (#[trigger] self@.snapshots[a]).files.len() implies has_blob(
                            self@.blobs,
                            (#[trigger] self@.snapshots[a].files[b]).1.hash,
                        ) by {
                            if a != i as int {
                                assert(self@.snapshots[a] == old_view.snapshots[a]);
                            }
                        }
                    }
                }
                return name;
            }
            i = i + 1;
        }
        self.snapshots.push(snapshot);
        proof {
            assert(self@.snapshots =~= old_view.snapshots.push(snap_view));
            assert(self@.blobs =~= old_view.blobs);
            assert(repo_wf(self@)) by {
                assert forall|a: int, b: int|
                    0 <= a < b < self@.snapshots.len() implies (#[trigger] self@.snapshots[a]).id
                    != (#[trigger] self@.snapshots[b]).id by {
                    if b < self@.snapshots.len() - 1 {
                        assert(self@.snapshots[a] == old_view.snapshots[a]);
                        assert(self@.snapshots[b] == old_view.snapshots[b]);
                    } else {
                        assert(self@.snapshots[a] == old_view.snapshots[a]);
                    }
                }
                assert forall|a: int|
                    0 <= a < self@.snapshots.len() implies files_sorted(
                    (#[trigger] self@.snapshots[a]).files,
                ) by {
                    if a < self@.snapshots.len() - 1 {
                        assert(self@.snapshots[a] == old_view.snapshots[a]);
                    }
                }
                assert forall|a: int, b: int|
                    0 <= a < self@.snapshots.len() && 0 <= b
                        < (#[trigger] self@.snapshots[a]).files.len() implies has_blob(
                    self@.blobs,
                    (#[trigger] self@.snapshots[a].files[b]).1.hash,
                ) by {
                    if a < self@.snapshots.len() - 1 {
                        assert(self@.snapshots[a] == old_view.snapshots[a]);
                    }
                }
            }
        }
        name
    }

    /// Lists all snapshots, oldest first by creation time.
    pub fn list_snapshots(&self) -> (r: Vec<Snapshot>)
        ensures
            snap_views(r@) == sort_by_time(self@.snapshots),
            time_sorted(snap_views(r@)),
    {
        let ghost all = self@.snapshots;
        proof {
            assert(all =~= snap_views(self.snapshots@));
        }
        let mut out: Vec<Snapshot> = Vec::new();
        let n = self.snapshots.len();
        let mut idx: usize = 0;
        while idx < n
            invariant
                0 <= idx <= n,
                n == self.snapshots@.len(),
                all == self@.snapshots,
                all == snap_views(self.snapshots@),
                snap_views(out@) == sort_by_time(all.take(idx as int)),
                time_sorted(snap_views(out@)),
            decreases n - idx,
        {
            let snap = self.snapshots[idx].clone();
            let ghost sv = snap@;
            let ghost sorted_before = snap_views(out@);
            let m = out.len();
            let mut k: usize = 0;
            while k < m && !snap.created_at.lt(&out[k].created_at)
                invariant
                    0 <= k <= m,
                    m == out@.len(),
                    sv == snap@,
                    snap_views(out@) == sorted_before,
                    forall|i: int|
                        0 <= i < k ==> !ts_lt(
                            sv.created_at,
                            (#[trigger] snap_views(out@)[i]).created_at,
                        ),
                decreases m - k,
            {
                k = k + 1;
            }
            proof {
                lemma_insert_by_time_at(sorted_before, sv, k as int);
                lemma_insert_by_time_sorted(sorted_before, sv);
            }
            out.insert(k, snap);
            proof {
                assert(snap_views(out@) =~= sorted_before.take(k as int) + seq![sv]
                    + sorted_before.skip(k as int));
                assert(all.take(idx as int + 1).drop_last() =~= all.take(idx as int));
                assert(all.take(idx as int + 1).last() == all[idx as int]);
                assert(all[idx as int] == sv);
                assert(snap_views(out@) == sort_by_time(all.take(idx as int + 1)));
            }
            idx = idx + 1;
        }
        proof {
            assert(all.take(n as int) =~= all);
        }
        out
    }

    /// Lists the snapshots of one target, oldest first by creation time.
    pub fn list_snapshots_for_target(&self, target: &str) -> (r: Vec<Snapshot>)
        ensures
            snap_views(r@) == strutil::seq_filter(sort_by_time(self@.snapshots), target_pred(target@)),
    {
        let ghost pred = target_pred(target@);
        let all = self.list_snapshots();
        let ghost sorted = snap_views(all@);
        let mut out: Vec<Snapshot> = Vec::new();
        let n = all.len();
        let mut i: usize = 0;
        while i < n
            invariant
                0 <= i <= n,
                n == all@.len(),
                sorted == snap_views(all@),
                snap_views(out@) == strutil::seq_filter(sorted.take(i as int), pred),
                pred == target_pred(target@),
            decreases n - i,
        {
            let ghost before = snap_views(out@);
            proof {
                assert(sorted.take(i as int + 1).drop_last() =~= sorted.take(i as int));
                assert(sorted.take(i as int + 1).last() == sorted[i as int]);
            }
            if strutil::str_eq(all[i].target_name.as_str(), target) {
                let snap = all[i].clone();
                out.push(snap);
                proof {
                    assert(snap_views(out@) =~= before.push(sorted[i as int]));
                }
            }
            i = i + 1;
        }
        proof {
            assert(sorted.take(n as int) =~= sorted);
        }
        out
    }

    /// Finds a snapshot whose identifier begins with `id_prefix`.
    ///
    /// Succeeds with the snapshot when exactly one matches, with nothing
    /// when none matches, and reports an ambiguity error with the match
    /// count when several do.  The exact identifier is always a valid
    /// prefix of itself.
    pub fn find_snapshot(&self, id_prefix: &str) -> (r: Result<Option<Snapshot>, RepoError>)
        ensures
            ({
                let matches = strutil::seq_filter(
                    self@.snapshots,
                    |s: SnapshotView| id_prefix@.is_prefix_of(s.id),
                );
                match r {
                    Ok(found) => match found {
                        Some(s) => matches.len() == 1 && s@ == matches[0],
                        None => matches.len() == 0,
                    },
                    Err(e) => e matches RepoError::AmbiguousPrefix { count } && matches.len()
                        == count && count >= 2,
                }
            }),
    {
        let ghost pred = |s: SnapshotView| id_prefix@.is_prefix_of(s.id);
        let ghost all = self@.snapshots;
        let n = self.snapshots.len();
        let mut count: usize = 0;
        let mut first: usize = 0;
        let mut i: usize = 0;
        while i < n
            invariant
                0 <= i <= n,
                n == self@.snapshots.len(),
                all == self@.snapshots,
                pred == (|s: SnapshotView| id_prefix@.is_prefix_of(s.id)),
                count == strutil::seq_filter(all.take(i as int), pred).len(),
                count <= i,
                count > 0 ==> first < i && strutil::seq_filter(all.take(i as int), pred)[0]
                    == all[first as int] && pred(all[first as int]),
            decreases n - i,
        {
            proof {
                assert(all.take(i as int + 1).drop_last() =~= all.take(i as int));
                assert(all.take(i as int + 1).last() == all[i as int]);
            }
            if strutil::str_starts_with(self.snapshots[i].id.as_str(), id_prefix) {
                if count == 0 {
                    first = i;
                }
                count = count + 1;
            }
            i = i + 1;
        }
        proof {
            assert(all.take(n as int) =~= all);
        }
        if count == 0 {
            Ok(None)
        } else if count == 1 {
            Ok(Some(self.snapshots[first].clone()))
        } else {
            Err(RepoError::AmbiguousPrefix { count })
        }
    }
}

/// Blob sizes summed with saturation, in pool order.
pub open spec fn sat_len_sum(blobs: Seq<(Seq<char>, Seq<u8>)>) -> u64
    decreases blobs.len(),
{
    if blobs.len() == 0 {
        0u64
    } else {
        arith::sat_add(sat_len_sum(blobs.drop_last()), blobs.last().1.len() as u64)
    }
}

/// Keeps snapshots whose identifier is not `id`.
pub open spec fn not_id_pred(id: Seq<char>) -> spec_fn(SnapshotView) -> bool {
    |s: SnapshotView| s.id != id
}

/// Keeps snapshots of the named target.
pub open spec fn target_pred(name: Seq<char>) -> spec_fn(SnapshotView) -> bool {
    |s: SnapshotView| s.target_name == name
}

/// Keeps the blobs that survive deleting `del`.
pub open spec fn blob_keep_pred(
    snaps: Seq<SnapshotView>,
    del: SnapshotView,
) -> spec_fn((Seq<char>, Seq<u8>)) -> bool {
    |p: (Seq<char>, Seq<u8>)| delete_keeps(snaps, del, p.0)
}

/// Keeps the blobs that deleting `del` removes.
pub open spec fn blob_drop_pred(
    snaps: Seq<SnapshotView>,
    del: SnapshotView,
) -> spec_fn((Seq<char>, Seq<u8>)) -> bool {
    |p: (Seq<char>, Seq<u8>)| !delete_keeps(snaps, del, p.0)
}

/// `h` is referenced by some snapshot whose identifier is not `id`.
pub open spec fn referenced_outside(snaps: Seq<SnapshotView>, id: Seq<char>, h: Seq<char>) -> bool {
    exists|i: int|
        0 <= i < snaps.len() && (#[trigger] snaps[i]).id != id && snap_has_hash(snaps[i], h)
}

/// Whether a blob under `h` survives deleting snapshot `del`: it does
/// unless only `del` references it.
pub open spec fn delete_keeps(snaps: Seq<SnapshotView>, del: SnapshotView, h: Seq<char>) -> bool {
    !(snap_has_hash(del, h) && !referenced_outside(snaps, del.id, h))
}

/// A hash resolves exactly when some pool entry carries it.
pub proof fn lemma_has_blob_iff_index(blobs: Seq<(Seq<char>, Seq<u8>)>, hash: Seq<char>)
    ensures
        has_blob(blobs, hash) <==> exists|k: int|
            0 <= k < blobs.len() && (#[trigger] blobs[k]).0 == hash,
    decreases blobs.len(),
{
    if blobs.len() > 0 {
        lemma_has_blob_iff_index(blobs.drop_first(), hash);
        if blobs[0].0 == hash {
        } else {
            assert(forall|k: int|
                0 <= k < blobs.drop_first().len() ==> (#[trigger] blobs.drop_first()[k])
                    == blobs[k + 1]);
            if has_blob(blobs, hash) {
                let k = choose|k: int|
                    0 <= k < blobs.drop_first().len() && (#[trigger] blobs.drop_first()[k]).0
                        == hash;
                assert(blobs[k + 1].0 == hash);
            }
            if exists|k: int| 0 <= k < blobs.len() && (#[trigger] blobs[k]).0 == hash {
                let k = choose|k: int| 0 <= k < blobs.len() && (#[trigger] blobs[k]).0 == hash;
                assert(blobs.drop_first()[k - 1].0 == hash);
            }
        }
    }
}

/// With unique keys, lookup at any entry's key yields that entry's bytes.
pub proof fn lemma_find_blob_unique(blobs: Seq<(Seq<char>, Seq<u8>)>, k: int)
    requires
        forall|i: int, j: int|
            0 <= i < j < blobs.len() ==> (#[trigger] blobs[i]).0 != (#[trigger] blobs[j]).0,
        0 <= k < blobs.len(),
    ensures
        find_blob(blobs, blobs[k].0) == Some(blobs[k].1),
{
    lemma_find_blob_first(blobs, blobs[k].0, k);
}

/// The filesystem path of a blob under a repository root: two-level
/// sharding by the first two hash characters.
pub open spec fn blob_path_spec(repo_path: Seq<char>, hash: Seq<char>) -> Seq<char> {
    repo_path + "/blobs/"@ + hash.take(vstd::math::min(2, hash.len() as int)) + "/"@ + hash.skip(
        vstd::math::min(2, hash.len() as int),
    )
}

/// Returns the filesystem path for a blob given its hash, using 2-character
/// sharding under `repo_path/blobs`.
pub fn blob_path(repo_path: &str, hash: &str) -> (r: String)
    ensures
        r@ == blob_path_spec(repo_path@, hash@),
{
    proof {
        reveal_strlit("/blobs/");
        reveal_strlit("/");
    }
    let (prefix, suffix) = crate::hasher::shard_path(hash);
    let mut s = repo_path.to_owned();
    s.append("/blobs/");
    s.append(prefix);
    s.append("/");
    s.append(suffix);
    s
}

/// Keeps the entries whose blob is missing from the pool.
pub open spec fn missing_pred(
    blobs: Seq<(Seq<char>, Seq<u8>)>,
) -> spec_fn((Seq<char>, FileEntryView)) -> bool {
    |pe: (Seq<char>, FileEntryView)| !has_blob(blobs, pe.1.hash)
}

/// The paths of a snapshot's entries whose blobs are missing from the
/// repository, in snapshot order; empty exactly when every referenced
/// blob resolves.
pub fn missing_blob_paths(repo: &Repository, snapshot: &Snapshot) -> (r: Vec<String>)
    ensures
        r@.len() == strutil::seq_filter(snapshot@.files, missing_pred(repo@.blobs)).len(),
        forall|k: int|
            0 <= k < r@.len() ==> (#[trigger] r@[k])@ == strutil::seq_filter(
                snapshot@.files,
                missing_pred(repo@.blobs),
            )[k].0,
{
    let ghost all = snapshot@.files;
    let ghost pred = missing_pred(repo@.blobs);
    let mut out: Vec<String> = Vec::new();
    let n = snapshot.files.len();
    let mut i: usize = 0;
    while i < n
        invariant
            0 <= i <= n,
            n == snapshot.files@.len(),
            all == snapshot@.files,
            all == entries_view(snapshot.files@),
            pred == missing_pred(repo@.blobs),
            out@.len() == strutil::seq_filter(all.take(i as int), pred).len(),
            forall|k: int|
                0 <= k < out@.len() ==> (#[trigger] out@[k])@ == strutil::seq_filter(
                    all.take(i as int),
                    pred,
                )[k].0,
        decreases n - i,
    {
        proof {
            assert(all.take(i as int + 1).drop_last() =~= all.take(i as int));
            assert(all.take(i as int + 1).last() == all[i as int]);
            assert(all[i as int] == (snapshot.files@[i as int].0@, snapshot.files@[i as int].1@));
        }
        if !repo.blob_exists(snapshot.files[i].1.hash.as_str()) {
            assert(pred(all[i as int]));
            out.push(snapshot.files[i].0.clone());
        } else {
            assert(!pred(all[i as int]));
        }
        i = i + 1;
    }
    proof {
        assert(all.take(n as int) =~= all);
    }
    out
}

/// Inserts a snapshot into a newest-first sequence, after existing
/// snapshots with the same creation time, as a stable sort does.
pub open spec fn insert_desc(sorted: Seq<SnapshotView>, s: SnapshotView) -> Seq<SnapshotView>
    decreases sorted.len(),
{
    if sorted.len() == 0 {
        seq![s]
    } else if ts_lt(sorted[0].created_at, s.created_at) {
        seq![s] + sorted
    } else {
        seq![sorted[0]] + insert_desc(sorted.drop_first(), s)
    }
}

/// Sorts snapshots newest first by creation time; a stable insertion sort.
pub open spec fn sort_desc(snaps: Seq<SnapshotView>) -> Seq<SnapshotView>
    decreases snaps.len(),
{
    if snaps.len() == 0 {
        Seq::empty()
    } else {
        insert_desc(sort_desc(snaps.drop_last()), snaps.last())
    }
}

/// Where a newest-first insert lands: after the prefix of elements not
/// strictly older than the inserted one.
pub proof fn lemma_insert_desc_at(sorted: Seq<SnapshotView>, s: SnapshotView, k: int)
    requires
        0 <= k <= sorted.len(),
        forall|i: int| 0 <= i < k ==> !ts_lt((#[trigger] sorted[i]).created_at, s.created_at),
        k < sorted.len() ==> ts_lt(sorted[k].created_at, s.created_at),
    ensures
        insert_desc(sorted, s) == sorted.take(k) + seq![s] + sorted.skip(k),
    decreases k,
{
    if k == 0 {
        assert(insert_desc(sorted, s) =~= sorted.take(0) + seq![s] + sorted.skip(0));
    } else {
        let tail = sorted.drop_first();
        assert(forall|i: int| 0 <= i < k - 1 ==> (#[trigger] tail[i]) == sorted[i + 1]);
        lemma_insert_desc_at(tail, s, k - 1);
        assert(seq![sorted[0]] + (tail.take(k - 1) + seq![s] + tail.skip(k - 1)) =~= sorted.take(k)
            + seq![s] + sorted.skip(k));
    }
}

/// A newest-first insert adds exactly the inserted snapshot.
pub proof fn lemma_insert_desc_multiset(sorted: Seq<SnapshotView>, s: SnapshotView)
    ensures
        insert_desc(sorted, s).to_multiset() == sorted.to_multiset().insert(s),
        insert_desc(sorted, s).len() == sorted.len() + 1,
    decreases sorted.len(),
{
    broadcast use vstd::seq_lib::group_to_multiset_ensures;

    let ins = insert_desc(sorted, s);
    if sorted.len() == 0 {
        assert(ins =~= Seq::empty().push(s));
        assert(Seq::<SnapshotView>::empty().push(s).to_multiset()
            == Seq::<SnapshotView>::empty().to_multiset().insert(s));
    } else if ts_lt(sorted[0].created_at, s.created_at) {
        assert(ins =~= sorted.insert(0, s));
        vstd::seq_lib::to_multiset_insert(sorted, 0, s);
    } else {
        let tail = sorted.drop_first();
        lemma_insert_desc_multiset(tail, s);
        assert(ins =~= insert_desc(tail, s).insert(0, sorted[0]));
        vstd::seq_lib::to_multiset_insert(insert_desc(tail, s), 0, sorted[0]);
        assert(sorted =~= tail.insert(0, sorted[0]));
        vstd::seq_lib::to_multiset_insert(tail, 0, sorted[0]);
        assert(ins.to_multiset() =~= sorted.to_multiset().insert(s));
    }
}

/// The newest-first sort holds the same snapshots.
pub proof fn lemma_sort_desc_ensures(snaps: Seq<SnapshotView>)
    ensures
        sort_desc(snaps).to_multiset() == snaps.to_multiset(),
        sort_desc(snaps).len() == snaps.len(),
    decreases snaps.len(),
{
    broadcast use vstd::seq_lib::group_to_multiset_ensures;

    if snaps.len() > 0 {
        lemma_sort_desc_ensures(snaps.drop_last());
        lemma_insert_desc_multiset(sort_desc(snaps.drop_last()), snaps.last());
        assert(snaps.drop_last().push(snaps.last()) =~= snaps);
    }
}

/// How one delete changes the repository and what it frees, as the
/// contract of [`Repository::delete_snapshot`] prescribes.
pub open spec fn delete_model(r: RepositoryView, del: SnapshotView) -> (RepositoryView, u64) {
    (
        RepositoryView {
            snapshots: strutil::seq_filter(r.snapshots, not_id_pred(del.id)),
            blobs: strutil::seq_filter(r.blobs, blob_keep_pred(r.snapshots, del)),
        },
        sat_len_sum(strutil::seq_filter(r.blobs, blob_drop_pred(r.snapshots, del))),
    )
}

/// Deleting a sequence of snapshots in order, accumulating the freed
/// bytes.
pub open spec fn prune_fold(r: RepositoryView, doomed: Seq<SnapshotView>) -> (RepositoryView, u64)
    decreases doomed.len(),
{
    if doomed.len() == 0 {
        (r, 0u64)
    } else {
        let step = delete_model(r, doomed[0]);
        let rest = prune_fold(step.0, doomed.drop_first());
        (rest.0, arith::sat_add(step.1, rest.1))
    }
}

/// Deleting one more snapshot at the end extends the fold by one step.
pub proof fn lemma_prune_fold_push(r: RepositoryView, doomed: Seq<SnapshotView>, x: SnapshotView)
    ensures
        prune_fold(r, doomed.push(x)) == {
            let acc = prune_fold(r, doomed);
            let step = delete_model(acc.0, x);
            (step.0, arith::sat_add(acc.1, step.1))
        },
    decreases doomed.len(),
{
    if doomed.len() == 0 {
        assert(doomed.push(x)[0] == x);
        assert(doomed.push(x).drop_first() =~= Seq::<SnapshotView>::empty());
        assert(prune_fold(r, Seq::<SnapshotView>::empty()) == (r, 0u64));
        assert(prune_fold(delete_model(r, x).0, Seq::<SnapshotView>::empty()) == (
            delete_model(r, x).0,
            0u64,
        ));
        assert(arith::sat_add(delete_model(r, x).1, 0u64) == delete_model(r, x).1);
        assert(arith::sat_add(0u64, delete_model(r, x).1) == delete_model(r, x).1);
    } else {
        assert(doomed.push(x)[0] == doomed[0]);
        assert(doomed.push(x).drop_first() =~= doomed.drop_first().push(x));
        lemma_prune_fold_push(delete_model(r, doomed[0]).0, doomed.drop_first(), x);
        arith::lemma_sat_add_assoc(
            delete_model(r, doomed[0]).1,
            prune_fold(delete_model(r, doomed[0]).0, doomed.drop_first()).1,
            delete_model(prune_fold(delete_model(r, doomed[0]).0, doomed.drop_first()).0, x).1,
        );
    }
}

/// Keeps snapshots whose identifier is none of the doomed ones.
pub open spec fn survives_pred(doomed: Seq<SnapshotView>) -> spec_fn(SnapshotView) -> bool {
    |s: SnapshotView| forall|m: int| 0 <= m < doomed.len() ==> s.id != (#[trigger] doomed[m]).id
}

/// Snapshot identifiers are pairwise distinct.
pub open spec fn ids_unique(s: Seq<SnapshotView>) -> bool {
    forall|i: int, j: int| 0 <= i < j < s.len() ==> (#[trigger] s[i]).id != (#[trigger] s[j]).id
}

/// Deleting a sequence of snapshots keeps exactly those whose identifier
/// is not among the deleted ones.
pub proof fn lemma_prune_fold_snapshots(r: RepositoryView, doomed: Seq<SnapshotView>)
    ensures
        prune_fold(r, doomed).0.snapshots == strutil::seq_filter(
            r.snapshots,
            survives_pred(doomed),
        ),
    decreases doomed.len(),
{
    if doomed.len() == 0 {
        strutil::lemma_seq_filter_all(r.snapshots, survives_pred(doomed));
    } else {
        let step = delete_model(r, doomed[0]);
        lemma_prune_fold_snapshots(step.0, doomed.drop_first());
        assert forall|x: SnapshotView| #[trigger] survives_pred(doomed)(x) == (not_id_pred(
            doomed[0].id,
        )(x) && survives_pred(doomed.drop_first())(x)) by {
            if not_id_pred(doomed[0].id)(x) && survives_pred(doomed.drop_first())(x) {
                assert forall|m: int| 0 <= m < doomed.len() implies x.id != (
                #[trigger] doomed[m]).id by {
                    if m > 0 {
                        assert(doomed.drop_first()[m - 1] == doomed[m]);
                    }
                }
            }
            if survives_pred(doomed)(x) {
                assert(x.id != doomed[0].id);
                assert forall|m: int| 0 <= m < doomed.drop_first().len() implies x.id != (
                #[trigger] doomed.drop_first()[m]).id by {
                    assert(doomed.drop_first()[m] == doomed[m + 1]);
                }
            }
        }
        strutil::lemma_seq_filter_compose(
            r.snapshots,
            not_id_pred(doomed[0].id),
            survives_pred(doomed.drop_first()),
            survives_pred(doomed),
        );
    }
}

/// A permutation of snapshots with pairwise distinct identifiers has
/// pairwise distinct identifiers, and its elements are common.
proof fn lemma_perm_ids_unique(a: Seq<SnapshotView>, b: Seq<SnapshotView>)
    requires
        a.to_multiset() == b.to_multiset(),
        ids_unique(a),
    ensures
        ids_unique(b),
        forall|x: SnapshotView| #[trigger] b.contains(x) ==> a.contains(x),
        forall|x: SnapshotView| #[trigger] a.contains(x) ==> b.contains(x),
{
    broadcast use vstd::seq_lib::group_to_multiset_ensures;

    assert(a.no_duplicates()) by {
        assert forall|i: int, j: int| 0 <= i < a.len() && 0 <= j < a.len() && i != j implies a[i]
            != a[j] by {
            if i < j {
                assert(a[i].id != a[j].id);
            } else {
                assert(a[j].id != a[i].id);
            }
        }
    }
    a.lemma_multiset_has_no_duplicates();
    b.lemma_multiset_has_no_duplicates_conv();
    assert forall|x: SnapshotView| #[trigger] b.contains(x) implies a.contains(x) by {
        vstd::seq_lib::to_multiset_contains(b, x);
        vstd::seq_lib::to_multiset_contains(a, x);
    }
    assert forall|x: SnapshotView| #[trigger] a.contains(x) implies b.contains(x) by {
        vstd::seq_lib::to_multiset_contains(b, x);
        vstd::seq_lib::to_multiset_contains(a, x);
    }
    assert forall|i: int, j: int| 0 <= i < j < b.len() implies (#[trigger] b[i]).id != (
    #[trigger] b[j]).id by {
        assert(b[i] != b[j]);
        assert(b.contains(b[i]) && b.contains(b[j]));
        assert(a.contains(b[i]) && a.contains(b[j]));
        let ki = choose|ki: int| 0 <= ki < a.len() && a[ki] == b[i];
        let kj = choose|kj: int| 0 <= kj < a.len() && a[kj] == b[j];
        assert(ki != kj);
        if ki < kj {
            assert(a[ki].id != a[kj].id);
        } else {
            assert(a[kj].id != a[ki].id);
        }
    }
}

/// Prune retention: pruning a target to `keep` snapshots leaves, among
/// that target's snapshots, exactly the `keep` most recent — the first
/// `keep` of the newest-first order — and their number is exactly `keep`.
pub proof fn lemma_prune_retention(r: RepositoryView, name: Seq<char>, keep: int)
    requires
        repo_wf(r),
        0 <= keep <= strutil::seq_filter(sort_by_time(r.snapshots), target_pred(name)).len(),
    ensures
        ({
            let for_target = strutil::seq_filter(sort_by_time(r.snapshots), target_pred(name));
            let sorted = sort_desc(for_target);
            let doomed = sorted.skip(keep);
            let survivors = strutil::seq_filter(
                prune_fold(r, doomed).0.snapshots,
                target_pred(name),
            );
            &&& survivors.len() == keep
            &&& (forall|x: SnapshotView|
                #[trigger] survivors.contains(x) <==> sorted.take(keep).contains(x))
        }),
{
    broadcast use vstd::seq_lib::group_to_multiset_ensures;

    let for_target = strutil::seq_filter(sort_by_time(r.snapshots), target_pred(name));
    let sorted = sort_desc(for_target);
    let doomed = sorted.skip(keep);
    let survivors = strutil::seq_filter(prune_fold(r, doomed).0.snapshots, target_pred(name));

    lemma_prune_fold_snapshots(r, doomed);
    let both = |s: SnapshotView| target_pred(name)(s) && survives_pred(doomed)(s);
    assert forall|x: SnapshotView| #[trigger] both(x) == (survives_pred(doomed)(x) && target_pred(
        name,
    )(x)) by {}
    strutil::lemma_seq_filter_compose(
        r.snapshots,
        survives_pred(doomed),
        target_pred(name),
        both,
    );
    assert(survivors == strutil::seq_filter(r.snapshots, both));

    // identifiers stay unique along the chain of permutations and filters
    lemma_sort_by_time_ensures(r.snapshots);
    assert(ids_unique(r.snapshots));
    lemma_perm_ids_unique(r.snapshots, sort_by_time(r.snapshots));
    strutil::lemma_seq_filter_unique(
        sort_by_time(r.snapshots),
        target_pred(name),
        |s: SnapshotView| s.id,
    );
    assert(ids_unique(for_target));
    lemma_sort_desc_ensures(for_target);
    lemma_perm_ids_unique(for_target, sorted);
    assert(ids_unique(sorted));
    strutil::lemma_seq_filter_membership(sort_by_time(r.snapshots), target_pred(name));
    strutil::lemma_seq_filter_keeps(sort_by_time(r.snapshots), target_pred(name));
    strutil::lemma_seq_filter_membership(r.snapshots, both);
    strutil::lemma_seq_filter_keeps(r.snapshots, both);
    strutil::lemma_seq_filter_unique(r.snapshots, both, |s: SnapshotView| s.id);

    // set equality of survivors and the newest-first prefix
    assert forall|x: SnapshotView| #[trigger] survivors.contains(x) implies sorted.take(
        keep,
    ).contains(x) by {
        let k = choose|k: int| 0 <= k < survivors.len() && survivors[k] == x;
        let ko = choose|ko: int| 0 <= ko < r.snapshots.len() && r.snapshots[ko] == x;
        assert(both(x));
        // x is a snapshot of the target, so it is in the sorted-by-target list
        assert(sort_by_time(r.snapshots).contains(x)) by {
            assert(r.snapshots.to_multiset().contains(x));
        }
        let kt = choose|kt: int|
            0 <= kt < sort_by_time(r.snapshots).len() && sort_by_time(r.snapshots)[kt] == x;
        assert(target_pred(name)(sort_by_time(r.snapshots)[kt]));
        assert(for_target.contains(x)) by {
            assert(exists|i: int|
                0 <= i < for_target.len() && #[trigger] for_target[i] == sort_by_time(
                    r.snapshots,
                )[kt]);
        }
        assert(sorted.contains(x)) by {
            assert(for_target.to_multiset().contains(x));
        }
        let l = choose|l: int| 0 <= l < sorted.len() && sorted[l] == x;
        assert(l < keep) by {
            if l >= keep {
                assert(doomed[l - keep] == sorted[l]);
                assert(survives_pred(doomed)(x));
                assert(x.id != doomed[l - keep].id);
            }
        }
        assert(sorted.take(keep)[l] == x);
    }
    assert forall|x: SnapshotView| sorted.take(keep).contains(x) implies #[trigger] survivors.contains(
        x,
    ) by {
        let l = choose|l: int| 0 <= l < keep && sorted.take(keep)[l] == x;
        assert(sorted[l] == x);
        assert(for_target.contains(x)) by {
            assert(sorted.to_multiset().contains(x));
        }
        let kf = choose|kf: int| 0 <= kf < for_target.len() && for_target[kf] == x;
        assert(target_pred(name)(x)) by {
            strutil::lemma_seq_filter_membership(sort_by_time(r.snapshots), target_pred(name));
        }
        assert(sort_by_time(r.snapshots).contains(x)) by {
            let ks = choose|ks: int|
                0 <= ks < sort_by_time(r.snapshots).len() && sort_by_time(r.snapshots)[ks]
                    == for_target[kf];
        }
        assert(r.snapshots.contains(x)) by {
            assert(sort_by_time(r.snapshots).to_multiset().contains(x));
        }
        let ko = choose|ko: int| 0 <= ko < r.snapshots.len() && r.snapshots[ko] == x;
        assert(survives_pred(doomed)(x)) by {
            assert forall|m: int| 0 <= m < doomed.len() implies x.id != (#[trigger] doomed[m]).id by {
                assert(doomed[m] == sorted[keep + m]);
                assert(l < keep + m);
                assert(sorted[l].id != sorted[keep + m].id);
            }
        }
        assert(both(r.snapshots[ko]));
        assert(exists|i: int|
            0 <= i < survivors.len() && #[trigger] survivors[i] == r.snapshots[ko]);
    }

    // equal sets of distinct elements have equal sizes
    assert(survivors.no_duplicates()) by {
        assert forall|i: int, j: int|
            0 <= i < survivors.len() && 0 <= j < survivors.len() && i != j implies survivors[i]
            != survivors[j] by {
            if i < j {
                assert(survivors[i].id != survivors[j].id);
            } else {
                assert(survivors[j].id != survivors[i].id);
            }
        }
    }
    assert(sorted.take(keep).no_duplicates()) by {
        assert forall|i: int, j: int|
            0 <= i < keep && 0 <= j < keep && i != j implies sorted.take(keep)[i] != sorted.take(
            keep,
        )[j] by {
            assert(sorted.take(keep)[i] == sorted[i]);
            assert(sorted.take(keep)[j] == sorted[j]);
            if i < j {
                assert(sorted[i].id != sorted[j].id);
            } else {
                assert(sorted[j].id != sorted[i].id);
            }
        }
    }
    survivors.unique_seq_to_set();
    sorted.take(keep).unique_seq_to_set();
    assert(survivors.to_set() =~= sorted.take(keep).to_set());
}

impl Repository {
    /// Reports whether some snapshot other than the one with identifier
    /// `del_id` references `h`.
    fn is_referenced_outside(&self, del_id: &str, h: &str) -> (r: bool)
        ensures
            r == referenced_outside(self@.snapshots, del_id@, h@),
    {
        let n = self.snapshots.len();
        let mut i: usize = 0;
        while i < n
            invariant
                0 <= i <= n,
                n == self@.snapshots.len(),
                forall|ii: int|
                    0 <= ii < i ==> !((#[trigger] self@.snapshots[ii]).id != del_id@
                        && snap_has_hash(self@.snapshots[ii], h@)),
            decreases n - i,
        {
            if !strutil::str_eq(self.snapshots[i].id.as_str(), del_id) && snap_contains_hash(
                &self.snapshots[i],
                h,
            ) {
                proof {
                    assert((#[trigger] self@.snapshots[i as int]).id != del_id@ && snap_has_hash(
                        self@.snapshots[i as int],
                        h@,
                    ));
                }
                return true;
            }
            i = i + 1;
        }
        assert(!referenced_outside(self@.snapshots, del_id@, h@));
        false
    }

    /// Deletes a snapshot and every blob only it referenced, returning the
    /// bytes freed from the pool.  Blobs are removed before the manifest,
    /// so an interruption can only leak storage, never break a survivor.
    pub fn delete_snapshot(&mut self, snapshot: &Snapshot) -> (freed: u64)
        requires
            repo_wf(old(self)@),
        ensures
            repo_wf(final(self)@),
            final(self)@.snapshots == strutil::seq_filter(
                old(self)@.snapshots,
                not_id_pred(snapshot@.id),
            ),
            final(self)@.blobs == strutil::seq_filter(
                old(self)@.blobs,
                blob_keep_pred(old(self)@.snapshots, snapshot@),
            ),
            freed == sat_len_sum(
                strutil::seq_filter(
                    old(self)@.blobs,
                    blob_drop_pred(old(self)@.snapshots, snapshot@),
                ),
            ),
            forall|q: Seq<char>|
                #[trigger] find_blob(final(self)@.blobs, q) is Some ==> find_blob(
                    final(self)@.blobs,
                    q,
                ) == find_blob(old(self)@.blobs, q),
    {
        let ghost old_view = self@;
        let ghost snap_view = snapshot@;
        let ghost keep_pred = blob_keep_pred(old_view.snapshots, snap_view);
        let ghost drop_pred = blob_drop_pred(old_view.snapshots, snap_view);

        // sweep the pool: keep a blob unless only this snapshot references it
        let mut kept: Vec<(String, Vec<u8>)> = Vec::new();
        let mut freed: u64 = 0;
        let nb = self.blobs.len();
        let mut i: usize = 0;
        while i < nb
            invariant
                0 <= i <= nb,
                nb == self@.blobs.len(),
                self@ == old_view,
                old_view == old(self)@,
                snap_view == snapshot@,
                keep_pred == blob_keep_pred(old_view.snapshots, snap_view),
                drop_pred == blob_drop_pred(old_view.snapshots, snap_view),
                Seq::new(kept@.len(), |j: int| (kept@[j].0@, kept@[j].1@)) == strutil::seq_filter(
                    old_view.blobs.take(i as int),
                    keep_pred,
                ),
                freed == sat_len_sum(
                    strutil::seq_filter(old_view.blobs.take(i as int), drop_pred),
                ),
            decreases nb - i,
        {
            let ghost kept_before = Seq::new(kept@.len(), |j: int| (kept@[j].0@, kept@[j].1@));
            proof {
                assert(old_view.blobs.take(i as int + 1).drop_last() =~= old_view.blobs.take(
                    i as int,
                ));
                assert(old_view.blobs.take(i as int + 1).last() == old_view.blobs[i as int]);
            }
            let in_deleted = snap_contains_hash(snapshot, self.blobs[i].0.as_str());
            if in_deleted && !self.is_referenced_outside(
                snapshot.id.as_str(),
                self.blobs[i].0.as_str(),
            ) {
                freed = arith::sat_add_u64(freed, u64_len(&self.blobs[i].1));
                proof {
                    assert(old_view.blobs[i as int].0 == self.blobs@[i as int].0@);
                    assert(drop_pred(old_view.blobs[i as int]));
                    assert(strutil::seq_filter(old_view.blobs.take(i as int + 1), drop_pred)
                        =~= strutil::seq_filter(old_view.blobs.take(i as int), drop_pred).push(
                        old_view.blobs[i as int],
                    ));
                    assert(!keep_pred(old_view.blobs[i as int]));
                    assert(strutil::seq_filter(old_view.blobs.take(i as int + 1), keep_pred)
                        =~= strutil::seq_filter(old_view.blobs.take(i as int), keep_pred));
                    let fplus = strutil::seq_filter(old_view.blobs.take(i as int + 1), drop_pred);
                    assert(fplus.drop_last() =~= strutil::seq_filter(
                        old_view.blobs.take(i as int),
                        drop_pred,
                    ));
                    assert(fplus.last() == old_view.blobs[i as int]);
                    assert(old_view.blobs[i as int].1 == self.blobs@[i as int].1@);
                }
            } else {
                let key = self.blobs[i].0.clone();
                let data = vstd::slice::slice_to_vec(self.blobs[i].1.as_slice());
                kept.push((key, data));
                proof {
                    assert(old_view.blobs[i as int].0 == self.blobs@[i as int].0@);
                    assert(keep_pred(old_view.blobs[i as int]));
                    assert(Seq::new(kept@.len(), |j: int| (kept@[j].0@, kept@[j].1@))
                        =~= kept_before.push(old_view.blobs[i as int]));
                    assert(strutil::seq_filter(old_view.blobs.take(i as int + 1), keep_pred)
                        =~= strutil::seq_filter(old_view.blobs.take(i as int), keep_pred).push(
                        old_view.blobs[i as int],
                    ));
                    assert(!drop_pred(old_view.blobs[i as int]));
                    assert(strutil::seq_filter(old_view.blobs.take(i as int + 1), drop_pred)
                        =~= strutil::seq_filter(old_view.blobs.take(i as int), drop_pred));
                }
            }
            i = i + 1;
        }
        proof {
            assert(old_view.blobs.take(nb as int) =~= old_view.blobs);
        }

        // remove the manifest itself
        let mut kept_snaps: Vec<Snapshot> = Vec::new();
        let ghost snap_keep = not_id_pred(snap_view.id);
        let ns = self.snapshots.len();
        let mut j: usize = 0;
        while j < ns
            invariant
                0 <= j <= ns,
                ns == self@.snapshots.len(),
                self@ == old_view,
                old_view == old(self)@,
                snap_view == snapshot@,
                snap_keep == not_id_pred(snap_view.id),
                snap_views(kept_snaps@) == strutil::seq_filter(
                    old_view.snapshots.take(j as int),
                    snap_keep,
                ),
            decreases ns - j,
        {
            let ghost before = snap_views(kept_snaps@);
            proof {
                assert(old_view.snapshots.take(j as int + 1).drop_last()
                    =~= old_view.snapshots.take(j as int));
                assert(old_view.snapshots.take(j as int + 1).last()
                    == old_view.snapshots[j as int]);
            }
            if !strutil::str_eq(self.snapshots[j].id.as_str(), snapshot.id.as_str()) {
                let snap = self.snapshots[j].clone();
                kept_snaps.push(snap);
                proof {
                    assert(snap_views(kept_snaps@) =~= before.push(old_view.snapshots[j as int]));
                }
            }
            j = j + 1;
        }
        proof {
            assert(old_view.snapshots.take(ns as int) =~= old_view.snapshots);
        }
        self.blobs = kept;
        self.snapshots = kept_snaps;
        proof {
            assert(self@.blobs =~= strutil::seq_filter(old_view.blobs, keep_pred));
            assert(self@.snapshots =~= strutil::seq_filter(old_view.snapshots, snap_keep));
            lemma_delete_preserves_wf(old_view, snap_view);
            lemma_delete_preserves_lookup(old_view, snap_view, self@.blobs);
        }
        freed
    }
}

/// Reports whether the snapshot references `h` through any file entry.
pub fn snap_contains_hash(s: &Snapshot, h: &str) -> (r: bool)
    ensures
        r == snap_has_hash(s@, h@),
{
    let n = s.files.len();
    let mut i: usize = 0;
    while i < n
        invariant
            0 <= i <= n,
            n == s@.files.len(),
            forall|j: int| 0 <= j < i ==> (#[trigger] s@.files[j]).1.hash != h@,
        decreases n - i,
    {
        if strutil::str_eq(s.files[i].1.hash.as_str(), h) {
            assert(s@.files[i as int].1.hash == h@);
            return true;
        }
        i = i + 1;
    }
    false
}

/// The length of a byte vector as a 64-bit count.
fn u64_len(v: &Vec<u8>) -> (r: u64)
    ensures
        r == v@.len() as u64,
        r == v@.len(),
{
    v.len() as u64
}

/// Deleting one snapshot keeps the repository well-formed: survivors keep
/// their references, because any blob they reference is, by that very
/// reference, not exclusive to the deleted snapshot.
proof fn lemma_delete_preserves_wf(r: RepositoryView, del: SnapshotView)
    requires
        repo_wf(r),
    ensures
        repo_wf(
            RepositoryView {
                snapshots: strutil::seq_filter(r.snapshots, not_id_pred(del.id)),
                blobs: strutil::seq_filter(r.blobs, blob_keep_pred(r.snapshots, del)),
            },
        ),
{
    let snap_keep = not_id_pred(del.id);
    let blob_keep = blob_keep_pred(r.snapshots, del);
    let new_snaps = strutil::seq_filter(r.snapshots, snap_keep);
    let new_blobs = strutil::seq_filter(r.blobs, blob_keep);
    strutil::lemma_seq_filter_membership(r.snapshots, snap_keep);
    strutil::lemma_seq_filter_membership(r.blobs, blob_keep);
    strutil::lemma_seq_filter_unique(r.blobs, blob_keep, |p: (Seq<char>, Seq<u8>)| p.0);
    strutil::lemma_seq_filter_unique(r.snapshots, snap_keep, |s: SnapshotView| s.id);
    strutil::lemma_seq_filter_keeps(r.blobs, blob_keep);
    lemma_has_blob_iff_index(r.blobs, Seq::<char>::empty());
    assert forall|a: int, b: int|
        0 <= a < new_snaps.len() && 0 <= b < (#[trigger] new_snaps[a]).files.len() implies has_blob(
        new_blobs,
        (#[trigger] new_snaps[a].files[b]).1.hash,
    ) by {
        let s = new_snaps[a];
        let h = s.files[b].1.hash;
        let k = choose|k: int| 0 <= k < r.snapshots.len() && r.snapshots[k] == s;
        assert(has_blob(r.blobs, h));
        lemma_has_blob_iff_index(r.blobs, h);
        let m = choose|m: int| 0 <= m < r.blobs.len() && (#[trigger] r.blobs[m]).0 == h;
        assert(referenced_outside(r.snapshots, del.id, h)) by {
            assert(r.snapshots[k].id != del.id && snap_has_hash(r.snapshots[k], h));
        }
        assert(blob_keep(r.blobs[m]));
        let mm = choose|mm: int| 0 <= mm < new_blobs.len() && new_blobs[mm] == r.blobs[m];
        lemma_has_blob_iff_index(new_blobs, h);
    }
    assert forall|a: int|
        0 <= a < new_snaps.len() implies files_sorted((#[trigger] new_snaps[a]).files) by {
        let k = choose|k: int| 0 <= k < r.snapshots.len() && r.snapshots[k] == new_snaps[a];
    }
}

/// After a delete, any hash that still resolves yields the same bytes as
/// before.
proof fn lemma_delete_preserves_lookup(
    r: RepositoryView,
    del: SnapshotView,
    new_blobs: Seq<(Seq<char>, Seq<u8>)>,
)
    requires
        repo_wf(r),
        new_blobs == strutil::seq_filter(r.blobs, blob_keep_pred(r.snapshots, del)),
    ensures
        forall|q: Seq<char>|
            #[trigger] find_blob(new_blobs, q) is Some ==> find_blob(new_blobs, q) == find_blob(
                r.blobs,
                q,
            ),
{
    let blob_keep = |p: (Seq<char>, Seq<u8>)| delete_keeps(r.snapshots, del, p.0);
    strutil::lemma_seq_filter_membership(r.blobs, blob_keep);
    strutil::lemma_seq_filter_unique(r.blobs, blob_keep, |p: (Seq<char>, Seq<u8>)| p.0);
    assert forall|q: Seq<char>| #[trigger] find_blob(new_blobs, q) is Some implies find_blob(
        new_blobs,
        q,
    ) == find_blob(r.blobs, q) by {
        lemma_has_blob_iff_index(new_blobs, q);
        let kf = choose|kf: int| 0 <= kf < new_blobs.len() && (#[trigger] new_blobs[kf]).0 == q;
        lemma_find_blob_unique(new_blobs, kf);
        let ko = choose|ko: int| 0 <= ko < r.blobs.len() && r.blobs[ko] == new_blobs[kf];
        lemma_find_blob_unique(r.blobs, ko);
    }
}

} // verus!
