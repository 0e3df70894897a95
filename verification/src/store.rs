//! One table of the database: memtable, log, and tables on disk.
//!
//! A [`Store`] does no input or output itself. Each operation gives a [`Step`] that says what has
//! to be done outside; once that has succeeded, the event is reported back and gives the next
//! step. If it fails, the operation ends there.

use vstd::prelude::*;
use vstd::string::StringExecFns;
use crate::bounds::{in_bounds, range_overlaps, Bound};
use crate::bytes::copy_bytes;
use crate::entry_map::{
    as_map, lemma_as_map_lookup, lemma_put_pair, pairs_view, put_pair, sorted, values_view,
    EntryMap,
};
use crate::errors::{AppError, AppErrorModel};
use crate::format::{find_in_block, pairs_in_block, Pair, TableModel};
use crate::model::{
    commit_failed_step, committed_step, compact_step, flush_step, log_cleared_step, log_step,
    lookup_after, lookup_from, lookup_start, merge_after, merge_at, merge_finish, merge_start,
    merge_step, merged_written_step, newest_first, next_number, next_read, over_budget, place_table,
    put_all, replay, removal_order, removed_step, replaced, replay_writes, scan_step, select,
    table_written_step, tables_of, total_footprint, CommitModel, LookupModel, MergeModel,
    ReplayFailure, ReplayModel, ScanModel, StepModel, StoreModel, DEFAULT_MEMTABLE_MAX_BYTES,
    MAX_SSTABLES,
};
use crate::names::{join_path, joined, sstable_path};
use crate::proto::{Operation, WalEntry, WalEntryModel};
use crate::sstable::{block_ref, probe_safe, BlockRef, SsTable};
use crate::value::{entry_footprint, footprint, wrapped, Entry, EntryModel, Value};
use crate::wal::{
    committed, committed_len, entries_view, log_entries, passed_over, passed_over_view, Recovery,
    Wal,
};

verus! {

/// What is reported when a value has been stored.
pub const INSERTED: &'static str = "Inserted value";

/// What is reported when a key has been deleted.
pub const DELETED: &'static str = "Deleted value";

/// Writes on their way into the log.
#[derive(Debug)]
pub struct Commit {
    writes: EntryMap,
    logged: usize,
    bytes: u64,
}

impl View for Commit {
    type V = CommitModel;

    closed spec fn view(&self) -> CommitModel {
        CommitModel {
            writes: self.writes.pairs(),
            logged: self.logged as nat,
            bytes: self.bytes,
        }
    }
}

impl Commit {
    /// Whether some write has not been logged yet.
    pub fn has_more(&self) -> (r: bool)
        ensures
            r == (self@.logged < self@.writes.len()),
    {
        self.logged < self.writes.len()
    }
}

/// A flushed memtable whose file is being written.
#[derive(Debug)]
pub struct NewTable {
    table: SsTable,
}

impl View for NewTable {
    type V = TableModel;

    closed spec fn view(&self) -> TableModel {
        self.table@
    }
}

/// A merge of tables, under way.
#[derive(Debug)]
pub struct Merge {
    merged: EntryMap,
    lo: Bound,
    hi: Bound,
    // Tables that have not been finished; the next block is one of the last of them.
    left: usize,
    block: usize,
}

impl View for Merge {
    type V = MergeModel;

    closed spec fn view(&self) -> MergeModel {
        MergeModel {
            merged: self.merged.pairs(),
            lo: self.lo@,
            hi: self.hi@,
            table: self.left - 1,
            block: self.block as int,
        }
    }
}

impl Merge {
    /// Whether the merge waits for a block of one of `tables`.
    pub open spec fn waits(&self, tables: Seq<TableModel>) -> bool {
        &&& sorted(self@.merged)
        &&& 0 <= self@.table < tables.len()
        &&& 0 <= self@.block < tables[self@.table].index.len()
    }
}

/// A merged table whose file is being written.
#[derive(Debug)]
pub struct MergedTable {
    table: SsTable,
}

impl View for MergedTable {
    type V = TableModel;

    closed spec fn view(&self) -> TableModel {
        self.table@
    }
}

/// The characters of some strings.
pub open spec fn strings_view(s: Seq<String>) -> Seq<Seq<char>> {
    Seq::new(s.len(), |i: int| s[i]@)
}

/// What has to be done before an operation can go on.
#[derive(Debug)]
pub enum Step {
    /// Append `bytes` to the log, then report [`Store::appended`]; if that fails, report
    /// [`Store::commit_failed`].
    Append { bytes: Vec<u8>, commit: Commit },
    /// Append `bytes` to the log and make the log durable, then report [`Store::committed`]; if
    /// that fails, report [`Store::commit_failed`].
    Commit { bytes: Vec<u8>, commit: Commit },
    /// Cut the log to `len` bytes and make that durable: the commit has failed, and nothing of it
    /// stays. If the cut fails too, nothing may be written until the table is opened anew.
    CutLog { len: u64 },
    /// Write `bytes` to the file at `path` and make it durable, then report
    /// [`Store::table_written`].
    WriteTable { path: String, bytes: Vec<u8>, table: NewTable },
    /// Empty the log and make that durable, then report [`Store::log_cleared`]. If that fails,
    /// nothing may be written until the table is opened anew.
    ClearLog,
    /// Read a block of the file at `path`, then report [`Store::merge_read`].
    ReadBlock { path: String, block: BlockRef, merge: Merge },
    /// Write `bytes` to the file at `path` and make it durable, then report
    /// [`Store::merged_written`].
    WriteMerged { path: String, bytes: Vec<u8>, merged: MergedTable },
    /// Remove these files in order, up to the first that cannot be removed, then report
    /// [`Store::removed`] with the number of those that are gone.
    Remove { paths: Vec<String> },
    /// Nothing: the operation is done.
    Done,
}

impl View for Step {
    type V = StepModel;

    open spec fn view(&self) -> StepModel {
        match *self {
            Step::Append { bytes, commit } => StepModel::Append {
                bytes: bytes@,
                commit: commit@,
            },
            Step::Commit { bytes, commit } => StepModel::Commit {
                bytes: bytes@,
                commit: commit@,
            },
            Step::WriteTable { path, bytes, table } => StepModel::WriteTable {
                path: path@,
                bytes: bytes@,
                table: table@,
            },
            Step::CutLog { len } => StepModel::CutLog { len },
            Step::ClearLog => StepModel::ClearLog,
            Step::ReadBlock { path, block, merge } => StepModel::ReadBlock {
                path: path@,
                block,
                merge: merge@,
            },
            Step::WriteMerged { path, bytes, merged } => StepModel::WriteMerged {
                path: path@,
                bytes: bytes@,
                table: merged@,
            },
            Step::Remove { paths } => StepModel::Remove { paths: strings_view(paths@) },
            Step::Done => StepModel::Done,
        }
    }
}

impl Step {
    /// Whether a merge that the step carries waits for a block of one of `tables`.
    pub open spec fn ready(&self, tables: Seq<TableModel>) -> bool {
        *self matches Step::ReadBlock { path, block, merge } ==> merge.waits(tables)
    }
}

/// How far a lookup has come.
#[derive(Debug)]
pub enum Lookup {
    /// It is done: the value, or `None` if the key is absent.
    Found(Option<Value>),
    /// Read a block of the file at `path`, then go on with [`Store::get_value_from`].
    Read { table: usize, path: String, block: BlockRef },
}

impl View for Lookup {
    type V = LookupModel;

    open spec fn view(&self) -> LookupModel {
        match *self {
            Lookup::Found(Some(v)) => LookupModel::Found(Some(v@)),
            Lookup::Found(None) => LookupModel::Found(None),
            Lookup::Read { table, path, block } => LookupModel::Read {
                table: table as int,
                path: path@,
                block,
            },
        }
    }
}

/// How far a scan has come.
#[derive(Debug)]
pub enum Scan {
    /// Read a block of the file at `path`, then go on with [`Store::scan_read`].
    ReadBlock { path: String, block: BlockRef, merge: Merge },
    /// It is done: the keys within the bounds, with their values, in order.
    Done(Vec<(Vec<u8>, Value)>),
}

impl View for Scan {
    type V = ScanModel;

    open spec fn view(&self) -> ScanModel {
        match *self {
            Scan::ReadBlock { path, block, merge } => ScanModel::ReadBlock {
                path: path@,
                block,
                merge: merge@,
            },
            Scan::Done(items) => ScanModel::Done(values_view(items@)),
        }
    }
}

/// The models of some tables.
pub open spec fn tables_view(tables: Seq<SsTable>) -> Seq<TableModel> {
    Seq::new(tables.len(), |i: int| tables[i]@)
}

/// The models of some numbered tables.
pub open spec fn found_view(found: Seq<(u64, SsTable)>) -> Seq<(u64, TableModel)> {
    Seq::new(found.len(), |i: int| (found[i].0, found[i].1@))
}

/// A single table. All its files live in one directory: `wal.log`, `LOCK`, and files named
/// `sstable_<id>.sst`.
#[derive(Debug)]
pub struct Store {
    // The memtable: committed values and deletion markers.
    data: EntryMap,
    // Live size of the memtable in bytes.
    memtable_bytes: usize,
    memtable_max_bytes: usize,
    wal: Wal,
    sequence: u64,
    dir: String,
    // Tables on disk, newest first.
    sstables: Vec<SsTable>,
    next_sstable_id: u64,
    // Length of the log up to and including its last commit.
    log_len: u64,
    // Files of compacted tables that are still to be removed, the oldest first.
    stale: Vec<String>,
}

impl View for Store {
    type V = StoreModel;

    closed spec fn view(&self) -> StoreModel {
        StoreModel {
            memtable: self.data.pairs(),
            budget: self.memtable_max_bytes,
            sequence: self.sequence,
            dir: self.dir@,
            tables: tables_view(self.sstables@),
            next_id: self.next_sstable_id,
            log_len: self.log_len,
            stale: strings_view(self.stale@),
        }
    }
}

impl Store {
    /// The counted size of the memtable in bytes.
    pub closed spec fn live_bytes(&self) -> usize {
        self.memtable_bytes
    }

    /// The log is in the table's directory.
    pub closed spec fn log_in_place(&self) -> bool {
        self.wal.file_path() == joined(self.dir@, "wal.log"@)
    }

    /// The memtable is in order, its counted size is the sum of the footprints of its pairs, as
    /// far as a `usize` can hold it, and the log is in its place.
    pub open spec fn wf(&self) -> bool {
        &&& sorted(self@.memtable)
        &&& self.live_bytes() == wrapped(total_footprint(self@.memtable) as int)
        &&& self.log_in_place()
    }

    // ---- opening ----

    /// The directory of a named table: `./data/<name>`.
    pub fn table_dir(name: &str) -> (r: String)
        ensures
            r@ == "./data/"@ + name@,
    {
        String::from_str("./data/").concat(name)
    }

    /// Opens a named table with the table files found in its directory.
    pub fn open_table(name: &str, found: Vec<(u64, SsTable)>) -> (r: Store)
        requires
            forall|i: int| 0 <= i < found@.len() ==> (#[trigger] found@[i]).0 < u64::MAX,
        ensures
            r.wf(),
            r@ == (StoreModel {
                memtable: Seq::empty(),
                budget: DEFAULT_MEMTABLE_MAX_BYTES,
                sequence: 0,
                dir: "./data/"@ + name@,
                tables: tables_of(newest_first(found_view(found@))),
                next_id: next_number(found_view(found@)) as u64,
                log_len: 0,
                stale: Seq::empty(),
            }),
    {
        Store::open_with_dir(Store::table_dir(name), found)
    }

    /// Opens the table in the directory `dir` with the table files found there, and their
    /// numbers. The log is still to be replayed.
    pub fn open_with_dir(dir: String, found: Vec<(u64, SsTable)>) -> (r: Store)
        requires
            forall|i: int| 0 <= i < found@.len() ==> (#[trigger] found@[i]).0 < u64::MAX,
        ensures
            r.wf(),
            r@ == (StoreModel {
                memtable: Seq::empty(),
                budget: DEFAULT_MEMTABLE_MAX_BYTES,
                sequence: 0,
                dir: dir@,
                tables: tables_of(newest_first(found_view(found@))),
                next_id: next_number(found_view(found@)) as u64,
                log_len: 0,
                stale: Seq::empty(),
            }),
    {
        let wal: Wal = Wal::with_path(join_path(dir.as_str(), "wal.log"));
        let (sstables, next_sstable_id) = load_sstables(found);
        let data: EntryMap = EntryMap::new();
        let stale: Vec<String> = Vec::new();
        proof {
            crate::value::lemma_wrapped_near(0);
            assert(strings_view(stale@) =~= Seq::<Seq<char>>::empty());
        }
        Store {
            data,
            memtable_bytes: 0,
            memtable_max_bytes: DEFAULT_MEMTABLE_MAX_BYTES,
            wal,
            sequence: 0,
            dir,
            sstables,
            next_sstable_id,
            log_len: 0,
            stale,
        }
    }

    /// What recovery makes of the log: the entries to replay, and where to cut an uncommitted
    /// tail off. The store takes note of the length that is kept. Sequence numbers go on after the
    /// highest one that the log still holds: a flush empties the log, so that they start again when
    /// the table is opened anew right after it.
    pub fn recover(&mut self, log: &[u8]) -> (r: Recovery)
        requires
            old(self).wf(),
        ensures
            final(self).wf(),
            final(self)@ == (StoreModel { log_len: committed_len(log@) as u64, ..old(self)@ }),
            entries_view(r.entries@) == committed(log_entries(log@)),
            r.truncate_to == (if committed_len(log@) < log@.len() {
                Some(committed_len(log@) as usize)
            } else {
                None
            }),
            committed_len(log@) <= log@.len(),
            passed_over_view(r.passed_over@) == passed_over(log@, 0),
    {
        let whole: usize = log.len();
        let recovery: Recovery = self.wal.read_for_recovery(log);
        self.log_len = match recovery.truncate_to {
            Some(len) => len as u64,
            None => whole as u64,
        };
        recovery
    }

    /// Replays log entries on top of the memtable: writes are held back until their commit. A value
    /// without a kind is an error; what comes before it has been applied by then.
    pub fn replay_wal(&mut self, entries: &Vec<WalEntry>) -> (r: Result<(), AppError>)
        requires
            old(self).wf(),
        ensures
            match replay(
                ReplayModel {
                    memtable: old(self)@.memtable,
                    sequence: old(self)@.sequence,
                    pending: Seq::empty(),
                },
                entries_view(entries@),
            ) {
                Ok(q) => r is Ok && final(self).wf() && final(self)@ == (StoreModel {
                    memtable: q.memtable,
                    sequence: q.sequence,
                    ..old(self)@
                }),
                Err(f) => (r matches Err(e) && e@ == AppErrorModel::DecodeError(f.text))
                    && final(self).wf() && final(self)@ == (StoreModel {
                    memtable: f.memtable,
                    sequence: f.sequence,
                    ..old(self)@
                }),
            },
    {
        let ghost all = entries_view(entries@);
        let ghost start = ReplayModel {
            memtable: self@.memtable,
            sequence: self@.sequence,
            pending: Seq::empty(),
        };
        let mut first: usize = 0;
        let mut i: usize = 0;
        assert(all.take(0) =~= Seq::<WalEntryModel>::empty());
        assert(all.subrange(0, 0) =~= Seq::<WalEntryModel>::empty());
        while i < entries.len()
            invariant
                first <= i <= entries@.len(),
                all == entries_view(entries@),
                self.wf(),
                self@ == (StoreModel {
                    memtable: self@.memtable,
                    sequence: self@.sequence,
                    ..old(self)@
                }),
                start == (ReplayModel {
                    memtable: old(self)@.memtable,
                    sequence: old(self)@.sequence,
                    pending: Seq::empty(),
                }),
                replay(start, all.take(i as int)) == Ok::<ReplayModel, ReplayFailure>(
                    ReplayModel {
                        memtable: self@.memtable,
                        sequence: self@.sequence,
                        pending: all.subrange(first as int, i as int),
                    },
                ),
            decreases entries@.len() - i,
        {
            let entry: &WalEntry = &entries[i];
            proof {
                assert(all.take(i + 1).drop_last() =~= all.take(i as int));
                assert(all.take(i + 1).last() == entry@);
            }
            if entry.operation() == Operation::Commit {
                match self.replay_writes(entries, first, i) {
                    Ok(()) => {},
                    Err(e) => {
                        proof {
                            lemma_replay_fails(start, all, i + 1);
                        }
                        return Err(e);
                    },
                }
                if entry.sequence > self.sequence {
                    self.sequence = entry.sequence;
                }
                first = i + 1;
                assert(all.subrange(first as int, i + 1) =~= Seq::<WalEntryModel>::empty());
            } else {
                assert(all.subrange(first as int, i + 1) =~= all.subrange(
                    first as int,
                    i as int,
                ).push(entry@));
            }
            i = i + 1;
        }
        assert(all.take(i as int) =~= all);
        Ok(())
    }

    /// Applies the writes from `first` to `end` to the memtable.
    fn replay_writes(&mut self, entries: &Vec<WalEntry>, first: usize, end: usize) -> (r: Result<
        (),
        AppError,
    >)
        requires
            old(self).wf(),
            first <= end <= entries@.len(),
        ensures
            match replay_writes(
                old(self)@.memtable,
                old(self)@.sequence,
                entries_view(entries@).subrange(first as int, end as int),
            ) {
                Ok((m, q)) => r is Ok && final(self).wf() && final(self)@ == (StoreModel {
                    memtable: m,
                    sequence: q,
                    ..old(self)@
                }),
                Err(f) => (r matches Err(e) && e@ == AppErrorModel::DecodeError(f.text))
                    && final(self).wf() && final(self)@ == (StoreModel {
                    memtable: f.memtable,
                    sequence: f.sequence,
                    ..old(self)@
                }),
            },
    {
        let ghost writes = entries_view(entries@).subrange(first as int, end as int);
        let mut j: usize = first;
        assert(writes.take(0) =~= Seq::<WalEntryModel>::empty());
        while j < end
            invariant
                first <= j <= end <= entries@.len(),
                writes == entries_view(entries@).subrange(first as int, end as int),
                self.wf(),
                self@ == (StoreModel {
                    memtable: self@.memtable,
                    sequence: self@.sequence,
                    ..old(self)@
                }),
                replay_writes(
                    old(self)@.memtable,
                    old(self)@.sequence,
                    writes.take(j - first),
                ) == Ok::<(Seq<Pair>, u64), ReplayFailure>((self@.memtable, self@.sequence)),
            decreases end - j,
        {
            let e: &WalEntry = &entries[j];
            proof {
                assert(writes.take(j - first + 1).drop_last() =~= writes.take(j - first));
                assert(writes.take(j - first + 1).last() == e@);
            }
            if e.operation() == Operation::Delete {
                self.memtable_insert(copy_bytes(e.key.as_slice()), Entry::Tombstone);
            } else {
                match &e.value {
                    Some(msg) => match Value::from_proto(msg) {
                        Ok(v) => {
                            self.memtable_insert(copy_bytes(e.key.as_slice()), Entry::Value(v));
                        },
                        Err(error) => {
                            proof {
                                lemma_replay_writes_fails(
                                    old(self)@.memtable,
                                    old(self)@.sequence,
                                    writes,
                                    j - first + 1,
                                );
                            }
                            return Err(error);
                        },
                    },
                    None => {},
                }
            }
            if e.sequence > self.sequence {
                self.sequence = e.sequence;
            }
            j = j + 1;
        }
        assert(writes.take(end - first) =~= writes);
        Ok(())
    }

    // ---- the memtable ----

    /// The memtable. What has been flushed is not in it.
    pub fn get_data(&self) -> (r: &EntryMap)
        requires
            self.wf(),
        ensures
            r.wf(),
            r.pairs() == self@.memtable,
    {
        &self.data
    }

    /// Sets the size at which the memtable is flushed.
    pub fn set_memtable_budget(&mut self, bytes: usize)
        requires
            old(self).wf(),
        ensures
            final(self).wf(),
            final(self)@ == (StoreModel { budget: bytes, ..old(self)@ }),
    {
        self.memtable_max_bytes = bytes;
    }

    /// Sets the entry of a key in the memtable, and keeps count of its size.
    fn memtable_insert(&mut self, key: Vec<u8>, entry: Entry)
        requires
            old(self).wf(),
        ensures
            final(self).wf(),
            final(self)@ == (StoreModel {
                memtable: put_pair(old(self)@.memtable, (key@, entry@)),
                ..old(self)@
            }),
            total_footprint(final(self)@.memtable) <= usize::MAX ==> final(self).live_bytes()
                == total_footprint(final(self)@.memtable),
    {
        let ghost s = self.data.pairs();
        let mut bytes: usize = self.memtable_bytes.wrapping_add(
            entry_footprint(key.as_slice(), &entry),
        );
        if let Some(held) = self.data.get(key.as_slice()) {
            bytes = bytes.wrapping_sub(entry_footprint(key.as_slice(), held));
        }
        proof {
            law_size_follows_the_memtable(s, (key@, entry@));
            if total_footprint(put_pair(s, (key@, entry@))) <= usize::MAX {
                crate::value::lemma_wrapped_near(
                    total_footprint(put_pair(s, (key@, entry@))) as int,
                );
            }
            lemma_put_pair(s, (key@, entry@));
            let total = total_footprint(s) as int;
            let added = footprint(key@, entry@) as int;
            crate::value::lemma_wrapped_add(total, added);
            if as_map(s).contains_key(key@) {
                crate::value::lemma_wrapped_sub(
                    total + added,
                    footprint(key@, as_map(s)[key@]) as int,
                );
            }
        }
        self.memtable_bytes = bytes;
        self.data.insert(key, entry);
    }

    // ---- writing ----

    /// Begins to store a value: the first step of its commit.
    pub fn set_value(&mut self, new_key: Vec<u8>, new_value: Value) -> (r: Step)
        requires
            old(self).wf(),
            old(self)@.sequence < u64::MAX,
        ensures
            final(self).wf(),
            r.ready(final(self)@.tables),
            (final(self)@, r@) == log_step(
                old(self)@,
                CommitModel {
                    writes: seq![(new_key@, EntryModel::Value(new_value@))],
                    logged: 0,
                    bytes: 0,
                },
            ),
    {
        let mut writes: EntryMap = EntryMap::new();
        writes.insert(new_key, Entry::Value(new_value));
        self.log_next(Commit { writes, logged: 0, bytes: 0 })
    }

    /// Begins to delete a key, by writing a deletion marker: the first step of its commit. It is
    /// not an error to delete a key that does not exist.
    pub fn delete_value(&mut self, key: &[u8]) -> (r: Step)
        requires
            old(self).wf(),
            old(self)@.sequence < u64::MAX,
        ensures
            final(self).wf(),
            r.ready(final(self)@.tables),
            (final(self)@, r@) == log_step(
                old(self)@,
                CommitModel { writes: seq![(key@, EntryModel::Tombstone)], logged: 0, bytes: 0 },
            ),
    {
        let mut writes: EntryMap = EntryMap::new();
        writes.insert(copy_bytes(key), Entry::Tombstone);
        self.log_next(Commit { writes, logged: 0, bytes: 0 })
    }

    /// Begins to commit some writes together: the first step of their commit.
    pub fn commit_writes(&mut self, writes: EntryMap) -> (r: Step)
        requires
            old(self).wf(),
            old(self)@.sequence < u64::MAX,
        ensures
            final(self).wf(),
            r.ready(final(self)@.tables),
            (final(self)@, r@) == log_step(
                old(self)@,
                CommitModel { writes: writes.pairs(), logged: 0, bytes: 0 },
            ),
    {
        self.log_next(Commit { writes, logged: 0, bytes: 0 })
    }

    /// The bytes of a [`Step::Append`] have been appended to the log.
    pub fn appended(&mut self, commit: Commit) -> (r: Step)
        requires
            old(self).wf(),
            commit@.logged < commit@.writes.len() ==> old(self)@.sequence < u64::MAX,
        ensures
            final(self).wf(),
            r.ready(final(self)@.tables),
            (final(self)@, r@) == log_step(old(self)@, commit@),
    {
        self.log_next(commit)
    }

    fn log_next(&mut self, commit: Commit) -> (r: Step)
        requires
            old(self).wf(),
            commit@.logged < commit@.writes.len() ==> old(self)@.sequence < u64::MAX,
        ensures
            final(self).wf(),
            r.ready(final(self)@.tables),
            (final(self)@, r@) == log_step(old(self)@, commit@),
    {
        let i: usize = commit.logged;
        if i < commit.writes.len() {
            self.sequence = self.sequence + 1;
            let key: Vec<u8> = copy_bytes(commit.writes.key_at(i).as_slice());
            let entry: WalEntry = match commit.writes.entry_at(i) {
                Entry::Value(v) => Wal::create_put_entry(key, v, self.sequence),
                Entry::Tombstone => Wal::create_delete_entry(key, self.sequence),
            };
            let bytes: Vec<u8> = self.wal.append(&entry);
            let count: u64 = commit.bytes.saturating_add(bytes.len() as u64);
            Step::Append {
                bytes,
                commit: Commit { writes: commit.writes, logged: i + 1, bytes: count },
            }
        } else {
            let bytes: Vec<u8> = self.wal.write_commit(self.sequence);
            let count: u64 = commit.bytes.saturating_add(bytes.len() as u64);
            Step::Commit {
                bytes,
                commit: Commit { writes: commit.writes, logged: i, bytes: count },
            }
        }
    }

    /// An append, or making the log durable, has failed, and the commit with it: the log is cut to
    /// what was committed before, so that no later commit adopts what is left of this one. The
    /// memtable and the tables are as they were.
    pub fn commit_failed(&self) -> (r: Step)
        ensures
            r@ == commit_failed_step(self@),
    {
        Step::CutLog { len: self.log_len }
    }

    /// The log holds the writes and their commit, durably: they go into the memtable.
    pub fn committed(&mut self, commit: Commit) -> (r: Step)
        requires
            old(self).wf(),
        ensures
            final(self).wf(),
            r.ready(final(self)@.tables),
            (final(self)@, r@) == committed_step(old(self)@, commit@),
    {
        let ghost writes = commit@.writes;
        let mut i: usize = 0;
        assert(writes.take(0) =~= Seq::<Pair>::empty());
        while i < commit.writes.len()
            invariant
                i <= writes.len(),
                writes == commit@.writes,
                self.wf(),
                self@ == (StoreModel {
                    memtable: put_all(old(self)@.memtable, writes.take(i as int)),
                    ..old(self)@
                }),
            decreases writes.len() - i,
        {
            proof {
                assert(writes.take(i + 1).drop_last() =~= writes.take(i as int));
                assert(writes.take(i + 1).last() == writes[i as int]);
            }
            self.memtable_insert(
                copy_bytes(commit.writes.key_at(i).as_slice()),
                commit.writes.entry_at(i).clone(),
            );
            i = i + 1;
        }
        assert(writes.take(i as int) =~= writes);
        self.log_len = self.log_len.saturating_add(commit.bytes);
        self.maybe_flush()
    }

    // ---- flushing ----

    /// Writes the memtable out as a new table. The table is durable before the log is cleared,
    /// so a crash in between costs nothing.
    pub fn flush(&mut self) -> (r: Step)
        requires
            old(self).wf(),
        ensures
            final(self).wf(),
            r.ready(final(self)@.tables),
            (final(self)@, r@) == flush_step(old(self)@),
    {
        if self.data.is_empty() {
            return Step::Done;
        }
        let path: String = sstable_path(self.dir.as_str(), self.next_sstable_id);
        let (table, bytes) = SsTable::flush(path.clone(), &self.data);
        Step::WriteTable { path, bytes, table: NewTable { table } }
    }

    fn maybe_flush(&mut self) -> (r: Step)
        requires
            old(self).wf(),
        ensures
            final(self).wf(),
            r.ready(final(self)@.tables),
            over_budget(old(self)@) ==> (final(self)@, r@) == flush_step(old(self)@),
            !over_budget(old(self)@) ==> (final(self)@, r@) == (old(self)@, StepModel::Done),
    {
        if self.memtable_bytes >= self.memtable_max_bytes {
            self.flush()
        } else {
            Step::Done
        }
    }

    /// The file of a flushed memtable is durable: the table takes the memtable's place.
    pub fn table_written(&mut self, new: NewTable) -> (r: Step)
        requires
            old(self).wf(),
            old(self)@.next_id < u64::MAX,
        ensures
            final(self).wf(),
            r.ready(final(self)@.tables),
            (final(self)@, r@) == table_written_step(old(self)@, new@),
    {
        let ghost before = self.sstables@;
        self.next_sstable_id = self.next_sstable_id + 1;
        self.sstables.insert(0, new.table);
        self.data.clear();
        self.memtable_bytes = 0;
        proof {
            crate::value::lemma_wrapped_near(0);
            assert(tables_view(self.sstables@) =~= seq![new@] + tables_view(before));
        }
        Step::ClearLog
    }

    /// The log is empty: too many tables are compacted.
    pub fn log_cleared(&mut self) -> (r: Step)
        requires
            old(self).wf(),
        ensures
            final(self).wf(),
            r.ready(final(self)@.tables),
            (final(self)@, r@) == log_cleared_step(old(self)@),
    {
        self.log_len = 0;
        if self.sstables.len() > MAX_SSTABLES {
            self.compact()
        } else {
            Step::Done
        }
    }

    // ---- compacting ----

    /// Merges all tables into one, keeping the newest entry of each key and dropping deletion
    /// markers. The merged table is durable before the old files are removed.
    pub fn compact(&mut self) -> (r: Step)
        requires
            old(self).wf(),
        ensures
            final(self).wf(),
            r.ready(final(self)@.tables),
            (final(self)@, r@) == compact_step(old(self)@),
    {
        if self.sstables.len() < 2 {
            return Step::Done;
        }
        let merge: Merge = self.start_merge(Bound::Unbounded, Bound::Unbounded);
        self.merge_next(merge)
    }

    /// The merge of all tables within the bounds, before any block of it has been read.
    fn start_merge(&self, lo: Bound, hi: Bound) -> (r: Merge)
        ensures
            sorted(r@.merged),
            r@ == merge_start(self@.tables, lo@, hi@),
    {
        Merge { merged: EntryMap::new(), lo, hi, left: self.sstables.len(), block: 0 }
    }

    /// Moves a merge on to the next block that it reads, if there is one.
    fn find_read(&self, merge: &mut Merge) -> (r: Option<(String, BlockRef)>)
        requires
            sorted(old(merge)@.merged),
            old(merge)@.table < self@.tables.len(),
        ensures
            sorted(final(merge)@.merged),
            match next_read(
                self@.tables,
                old(merge)@.table,
                old(merge)@.block,
                old(merge)@.lo,
                old(merge)@.hi,
            ) {
                Some((t, b)) => (r matches Some((p, k)) && p@ == self@.tables[t].path && k
                    == block_ref(self@.tables[t], b)) && final(merge)@ == merge_at(
                    old(merge)@,
                    t,
                    b,
                ) && final(merge).waits(self@.tables),
                None => r is None && final(merge)@.merged == old(merge)@.merged && final(merge)@.lo
                    == old(merge)@.lo && final(merge)@.hi == old(merge)@.hi,
            },
    {
        let ghost tables = self@.tables;
        let ghost goal = next_read(tables, merge@.table, merge@.block, merge@.lo, merge@.hi);
        while merge.left > 0
            invariant
                tables == self@.tables,
                merge.left <= tables.len(),
                sorted(merge@.merged),
                merge@ == (MergeModel {
                    table: merge@.table,
                    block: merge@.block,
                    ..old(merge)@
                }),
                goal == next_read(
                    tables,
                    old(merge)@.table,
                    old(merge)@.block,
                    old(merge)@.lo,
                    old(merge)@.hi,
                ),
                goal == next_read(tables, merge@.table, merge@.block, merge@.lo, merge@.hi),
            decreases merge.left,
        {
            let t: usize = merge.left - 1;
            let table: &SsTable = &self.sstables[t];
            let holds: bool = match table.key_range() {
                Some((min, max)) => range_overlaps(min, max, &merge.lo, &merge.hi),
                None => true,
            };
            if holds && merge.block < table.block_count() {
                let path: String = String::from_str(table.path());
                return Some((path, table.block_at(merge.block)));
            }
            merge.left = t;
            merge.block = 0;
        }
        None
    }

    /// Puts the pairs of a block within the bounds into a merge.
    fn absorb(&self, merge: &mut Merge, block: &[u8]) -> (r: Result<(), AppError>)
        requires
            old(merge).waits(self@.tables),
            block@.len() >= 4,
        ensures
            match pairs_in_block(
                self@.tables[old(merge)@.table].index[old(merge)@.block].block_offset,
                block@,
            ) {
                Ok(pairs) => r is Ok && final(merge)@ == merge_after(old(merge)@, pairs) && sorted(
                    final(merge)@.merged,
                ),
                Err(text) => r matches Err(e) && e@ == AppErrorModel::DecodeError(text),
            },
    {
        let table: &SsTable = &self.sstables[merge.left - 1];
        assert(table@ == self@.tables[merge@.table]);
        let count: usize = table.block_count();
        let mut entries: Vec<(Vec<u8>, Entry)> = Vec::new();
        match table.read_block_entries(merge.block, block, &mut entries) {
            Ok(()) => {},
            Err(e) => return Err(e),
        }
        let ghost pairs = pairs_view(entries@);
        let ghost lo = merge@.lo;
        let ghost hi = merge@.hi;
        assert(Seq::<Pair>::empty() + pairs =~= pairs);
        assert(pairs_view(Seq::<(Vec<u8>, Entry)>::empty()) =~= Seq::<Pair>::empty());
        assert(select(pairs.take(0), lo, hi) =~= Seq::<Pair>::empty());
        let mut i: usize = 0;
        while i < entries.len()
            invariant
                i <= entries@.len(),
                pairs == pairs_view(entries@),
                lo == merge@.lo,
                hi == merge@.hi,
                sorted(merge@.merged),
                merge@ == (MergeModel {
                    merged: put_all(old(merge)@.merged, select(pairs.take(i as int), lo, hi)),
                    ..old(merge)@
                }),
            decreases entries@.len() - i,
        {
            proof {
                assert(pairs.take(i + 1).drop_last() =~= pairs.take(i as int));
                assert(pairs.take(i + 1).last() == pairs[i as int]);
            }
            if in_bounds(entries[i].0.as_slice(), &merge.lo, &merge.hi) {
                proof {
                    let before = select(pairs.take(i as int), lo, hi);
                    assert(before.push(pairs[i as int]).drop_last() =~= before);
                }
                let key: Vec<u8> = copy_bytes(entries[i].0.as_slice());
                merge.merged.insert(key, entries[i].1.clone());
            }
            i = i + 1;
        }
        assert(pairs.take(i as int) =~= pairs);
        assert(merge.block < count);
        merge.block = merge.block + 1;
        Ok(())
    }

    /// The block of a [`Step::ReadBlock`] has been read.
    pub fn merge_read(&mut self, merge: Merge, block: &[u8]) -> (r: Result<Step, AppError>)
        requires
            old(self).wf(),
            merge.waits(old(self)@.tables),
            block@.len() >= 4,
        ensures
            final(self).wf(),
            match pairs_in_block(
                old(self)@.tables[merge@.table].index[merge@.block].block_offset,
                block@,
            ) {
                Ok(pairs) => r matches Ok(step) && step.ready(final(self)@.tables) && (
                final(self)@,
                step@,
                ) == merge_step(old(self)@, merge_after(merge@, pairs)),
                Err(text) => (r matches Err(e) && e@ == AppErrorModel::DecodeError(text))
                    && final(self)@ == old(self)@,
            },
    {
        let mut merge: Merge = merge;
        match self.absorb(&mut merge, block) {
            Ok(()) => Ok(self.merge_next(merge)),
            Err(e) => Err(e),
        }
    }

    fn merge_next(&mut self, merge: Merge) -> (r: Step)
        requires
            old(self).wf(),
            sorted(merge@.merged),
            merge@.table < old(self)@.tables.len(),
        ensures
            final(self).wf(),
            r.ready(final(self)@.tables),
            (final(self)@, r@) == merge_step(old(self)@, merge@),
    {
        let mut merge: Merge = merge;
        match self.find_read(&mut merge) {
            Some((path, block)) => Step::ReadBlock { path, block, merge },
            None => self.merge_finished(merge),
        }
    }

    fn merge_finished(&mut self, merge: Merge) -> (r: Step)
        requires
            old(self).wf(),
            sorted(merge@.merged),
        ensures
            final(self).wf(),
            !(r is ReadBlock),
            (final(self)@, r@) == merge_finish(old(self)@, merge@.merged),
    {
        let kept: EntryMap = merge.merged.to_live();
        if kept.is_empty() {
            let paths: Vec<String> = self.replace_tables(Vec::new());
            assert(tables_view(Seq::<SsTable>::empty()) =~= Seq::<TableModel>::empty());
            Step::Remove { paths }
        } else {
            let path: String = sstable_path(self.dir.as_str(), self.next_sstable_id);
            let (table, bytes) = SsTable::flush(path.clone(), &kept);
            Step::WriteMerged { path, bytes, merged: MergedTable { table } }
        }
    }

    /// Puts `tables` in the place of all tables, and gives the paths of all files that can go:
    /// those left from before, and those of the old tables, the oldest first.
    fn replace_tables(&mut self, tables: Vec<SsTable>) -> (r: Vec<String>)
        requires
            old(self).wf(),
        ensures
            final(self).wf(),
            final(self)@ == replaced(old(self)@, tables_view(tables@)),
            strings_view(r@) == final(self)@.stale,
    {
        let ghost order = removal_order(self@.tables);
        let ghost before = self@.stale;
        let mut i: usize = self.sstables.len();
        assert(order.take(0) =~= Seq::<Seq<char>>::empty());
        assert(before + order.take(0) =~= before);
        while i > 0
            invariant
                i <= self.sstables@.len(),
                order == removal_order(old(self)@.tables),
                before == old(self)@.stale,
                order.len() == self.sstables@.len(),
                self.sstables@ == old(self).sstables@,
                self.wf(),
                self@ == (StoreModel { stale: before + order.take(order.len() - i), ..old(self)@ }),
            decreases i,
        {
            i = i - 1;
            let path: String = String::from_str(self.sstables[i].path());
            let ghost held = self.stale@;
            let ghost p = path@;
            self.stale.push(path);
            proof {
                assert(strings_view(self.stale@) =~= strings_view(held).push(p));
                assert(order[order.len() - i - 1] == p);
                assert(order.take(order.len() - i) =~= order.take(order.len() - i - 1).push(p));
                assert((before + order.take(order.len() - i - 1)).push(p) =~= before + order.take(
                    order.len() - i,
                ));
            }
        }
        assert(order.take(order.len() as int) =~= order);
        self.sstables = tables;
        copy_strings(&self.stale)
    }

    /// The file of a merged table is durable: the table takes the place of all others, whose files
    /// can go.
    pub fn merged_written(&mut self, merged: MergedTable) -> (r: Step)
        requires
            old(self).wf(),
            old(self)@.next_id < u64::MAX,
        ensures
            final(self).wf(),
            r.ready(final(self)@.tables),
            (final(self)@, r@) == merged_written_step(old(self)@, merged@),
    {
        let mut tables: Vec<SsTable> = Vec::new();
        tables.push(merged.table);
        assert(tables_view(tables@) =~= seq![merged@]);
        let paths: Vec<String> = self.replace_tables(tables);
        self.next_sstable_id = self.next_sstable_id + 1;
        Step::Remove { paths }
    }

    /// The first `n` of the files to be removed are gone. The others are removed with the files of
    /// the next compaction; until then every newer file of a compacted table is there too, so that
    /// opening the table anew brings no value back.
    pub fn removed(&mut self, n: usize) -> (r: Step)
        requires
            old(self).wf(),
            n <= old(self)@.stale.len(),
        ensures
            final(self).wf(),
            r.ready(final(self)@.tables),
            (final(self)@, r@) == removed_step(old(self)@, n as nat),
    {
        let ghost before = self.stale@;
        let left: Vec<String> = self.stale.split_off(n);
        self.stale = left;
        assert(strings_view(self.stale@) =~= strings_view(before).skip(n as int));
        Step::Done
    }

    // ---- reading ----

    /// Begins to look a key up: in the memtable first, then in the tables, newest first. The
    /// first that holds the key decides; a deletion marker is the same as no value.
    pub fn get_value(&self, key: &[u8]) -> (r: Lookup)
        requires
            self.wf(),
            forall|i: int|
                0 <= i < self@.tables.len() ==> probe_safe(#[trigger] self@.tables[i], key@),
        ensures
            r@ == lookup_start(self@, key@),
            r matches Lookup::Read { table, path, block } ==> table < self@.tables.len()
                && block.block < self@.tables[table as int].index.len(),
    {
        match self.data.get(key) {
            Some(Entry::Value(v)) => return Lookup::Found(Some(v.clone())),
            Some(Entry::Tombstone) => return Lookup::Found(None),
            None => {},
        }
        self.look_in_tables(0, key)
    }

    fn look_in_tables(&self, from: usize, key: &[u8]) -> (r: Lookup)
        requires
            from <= self@.tables.len(),
            forall|i: int|
                0 <= i < self@.tables.len() ==> probe_safe(#[trigger] self@.tables[i], key@),
        ensures
            r@ == lookup_from(self@.tables, from as int, key@),
            r matches Lookup::Read { table, path, block } ==> table < self@.tables.len()
                && block.block < self@.tables[table as int].index.len(),
    {
        let mut i: usize = from;
        while i < self.sstables.len()
            invariant
                i <= self@.tables.len(),
                self.sstables@.len() == self@.tables.len(),
                forall|j: int|
                    0 <= j < self@.tables.len() ==> probe_safe(#[trigger] self@.tables[j], key@),
                lookup_from(self@.tables, from as int, key@) == lookup_from(
                    self@.tables,
                    i as int,
                    key@,
                ),
            decreases self@.tables.len() - i,
        {
            let table: &SsTable = &self.sstables[i];
            assert(table@ == self@.tables[i as int]);
            if let Some(block) = table.get(key) {
                let path: String = String::from_str(table.path());
                return Lookup::Read { table: i, path, block };
            }
            i = i + 1;
        }
        Lookup::Found(None)
    }

    /// Goes on with a lookup whose block has been read.
    pub fn get_value_from(&self, key: &[u8], table: usize, block_no: usize, block: &[u8]) -> (r:
        Result<Lookup, AppError>)
        requires
            table < self@.tables.len(),
            block_no < self@.tables[table as int].index.len(),
            block@.len() >= 4,
            forall|i: int|
                0 <= i < self@.tables.len() ==> probe_safe(#[trigger] self@.tables[i], key@),
        ensures
            match find_in_block(
                self@.tables[table as int].index[block_no as int].block_offset,
                block@,
                key@,
            ) {
                Ok(found) => r matches Ok(x) && x@ == lookup_after(
                    self@.tables,
                    table as int,
                    key@,
                    found,
                ) && (x matches Lookup::Read { table: t, path, block: b } ==> t
                    < self@.tables.len() && b.block < self@.tables[t as int].index.len()),
                Err(text) => r matches Err(e) && e@ == AppErrorModel::DecodeError(text),
            },
    {
        let sst: &SsTable = &self.sstables[table];
        assert(sst@ == self@.tables[table as int]);
        assert(table < self.sstables.len());
        match sst.get_from_block(block_no, block, key) {
            Ok(Some(Entry::Value(v))) => Ok(Lookup::Found(Some(v))),
            Ok(Some(Entry::Tombstone)) => Ok(Lookup::Found(None)),
            Ok(None) => Ok(self.look_in_tables(table + 1, key)),
            Err(e) => Err(e),
        }
    }

    /// Begins to collect all keys within the bounds, with their values, in ascending order. The
    /// newest entry of each key decides; deleted keys are left out. Tables that cannot hold a key
    /// within the bounds are not read.
    pub fn scan_range(&self, lo: Bound, hi: Bound) -> (r: Scan)
        requires
            self.wf(),
        ensures
            r@ == scan_step(self@, merge_start(self@.tables, lo@, hi@)),
            r matches Scan::ReadBlock { path, block, merge } ==> merge.waits(self@.tables),
    {
        let merge: Merge = self.start_merge(lo, hi);
        self.scan_next(merge)
    }

    /// Goes on with a scan whose block has been read.
    pub fn scan_read(&self, merge: Merge, block: &[u8]) -> (r: Result<Scan, AppError>)
        requires
            self.wf(),
            merge.waits(self@.tables),
            block@.len() >= 4,
        ensures
            match pairs_in_block(
                self@.tables[merge@.table].index[merge@.block].block_offset,
                block@,
            ) {
                Ok(pairs) => r matches Ok(scan) && scan@ == scan_step(
                    self@,
                    merge_after(merge@, pairs),
                ) && (scan matches Scan::ReadBlock { path, block: b, merge: m } ==> m.waits(
                    self@.tables,
                )),
                Err(text) => r matches Err(e) && e@ == AppErrorModel::DecodeError(text),
            },
    {
        let mut merge: Merge = merge;
        match self.absorb(&mut merge, block) {
            Ok(()) => Ok(self.scan_next(merge)),
            Err(e) => Err(e),
        }
    }

    fn scan_next(&self, merge: Merge) -> (r: Scan)
        requires
            self.wf(),
            sorted(merge@.merged),
            merge@.table < self@.tables.len(),
        ensures
            r@ == scan_step(self@, merge@),
            r matches Scan::ReadBlock { path, block, merge: m } ==> m.waits(self@.tables),
    {
        let mut merge: Merge = merge;
        match self.find_read(&mut merge) {
            Some((path, block)) => Scan::ReadBlock { path, block, merge },
            None => {
                let ghost lo = merge@.lo;
                let ghost hi = merge@.hi;
                let ghost before = merge@.merged;
                let ghost s = self@.memtable;
                let mut merged: EntryMap = merge.merged;
                let mut i: usize = 0;
                assert(select(s.take(0), lo, hi) =~= Seq::<Pair>::empty());
                while i < self.data.len()
                    invariant
                        i <= s.len(),
                        s == self.data.pairs(),
                        lo == merge.lo@,
                        hi == merge.hi@,
                        merged.wf(),
                        merged.pairs() == put_all(before, select(s.take(i as int), lo, hi)),
                    decreases s.len() - i,
                {
                    proof {
                        assert(s.take(i + 1).drop_last() =~= s.take(i as int));
                        assert(s.take(i + 1).last() == s[i as int]);
                    }
                    let key: &Vec<u8> = self.data.key_at(i);
                    if in_bounds(key.as_slice(), &merge.lo, &merge.hi) {
                        proof {
                            let chosen = select(s.take(i as int), lo, hi);
                            assert(chosen.push(s[i as int]).drop_last() =~= chosen);
                        }
                        merged.insert(copy_bytes(key.as_slice()), self.data.entry_at(i).clone());
                    }
                    i = i + 1;
                }
                assert(s.take(i as int) =~= s);
                Scan::Done(merged.values())
            },
        }
    }

    // ---- facts about the table ----

    /// The path of the log file.
    pub fn log_path(&self) -> (r: &str)
        requires
            self.wf(),
        ensures
            r@ == joined(self@.dir, "wal.log"@),
    {
        self.wal.path()
    }

    /// The last sequence number given out.
    pub fn sequence(&self) -> (r: u64)
        ensures
            r == self@.sequence,
    {
        self.sequence
    }

    /// The number of the next table file.
    pub fn next_sstable_id(&self) -> (r: u64)
        ensures
            r == self@.next_id,
    {
        self.next_sstable_id
    }

    /// Whether looking `key` up probes no filter that has probes but no bits.
    pub fn can_probe(&self, key: &[u8]) -> (r: bool)
        ensures
            r == (forall|i: int|
                0 <= i < self@.tables.len() ==> probe_safe(#[trigger] self@.tables[i], key@)),
    {
        let mut i: usize = 0;
        while i < self.sstables.len()
            invariant
                i <= self.sstables@.len(),
                self.sstables@.len() == self@.tables.len(),
                forall|j: int| 0 <= j < i ==> probe_safe(#[trigger] self@.tables[j], key@),
            decreases self.sstables@.len() - i,
        {
            assert(self.sstables@[i as int]@ == self@.tables[i as int]);
            if !self.sstables[i].can_probe(key) {
                return false;
            }
            i = i + 1;
        }
        true
    }
}

/// Copies some strings.
fn copy_strings(strings: &Vec<String>) -> (r: Vec<String>)
    ensures
        strings_view(r@) == strings_view(strings@),
{
    let mut out: Vec<String> = Vec::new();
    let mut i: usize = 0;
    while i < strings.len()
        invariant
            i <= strings@.len(),
            out@.len() == i,
            forall|j: int| 0 <= j < i ==> (#[trigger] out@[j])@ == strings@[j]@,
        decreases strings@.len() - i,
    {
        out.push(strings[i].clone());
        i = i + 1;
    }
    assert(strings_view(out@) =~= strings_view(strings@));
    out
}

/// Orders the tables found in a directory newest first, and finds the number of the next one.
fn load_sstables(found: Vec<(u64, SsTable)>) -> (r: (Vec<SsTable>, u64))
    requires
        forall|i: int| 0 <= i < found@.len() ==> (#[trigger] found@[i]).0 < u64::MAX,
    ensures
        tables_view(r.0@) == tables_of(newest_first(found_view(found@))),
        r.1 == next_number(found_view(found@)),
{
    let ghost all = found_view(found@);
    let mut rest: Vec<(u64, SsTable)> = found;
    let mut ids: Vec<u64> = Vec::new();
    let mut tables: Vec<SsTable> = Vec::new();
    let mut next_id: u64 = 1;
    let ghost mut done: int = 0;
    let ghost mut placed: Seq<(u64, TableModel)> = Seq::empty();
    assert(all.take(0) =~= Seq::<(u64, TableModel)>::empty());
    assert(all.skip(0) =~= all);
    while rest.len() > 0
        invariant
            0 <= done <= all.len(),
            found_view(rest@) == all.skip(done),
            forall|i: int| 0 <= i < rest@.len() ==> (#[trigger] rest@[i]).0 < u64::MAX,
            placed == newest_first(all.take(done)),
            ids@.len() == placed.len(),
            tables@.len() == placed.len(),
            forall|i: int| 0 <= i < placed.len() ==> (#[trigger] placed[i]).0 == ids@[i],
            forall|i: int| 0 <= i < placed.len() ==> (#[trigger] placed[i]).1 == tables@[i]@,
            next_id == next_number(all.take(done)),
        decreases rest@.len(),
    {
        let ghost before = rest@;
        assert(found_view(before).len() == all.len() - done);
        let (id, table) = rest.remove(0);
        let ghost t = (id, table@);
        proof {
            assert(t == found_view(before)[0]);
            assert(all.take(done + 1).drop_last() =~= all.take(done));
            assert(all.take(done + 1).last() == t);
            assert forall|i: int| 0 <= i < rest@.len() implies #[trigger] found_view(rest@)[i]
                == all.skip(done + 1)[i] by {
                assert(rest@[i] == before[i + 1]);
                assert(found_view(before)[i + 1] == all.skip(done)[i + 1]);
            }
            assert(found_view(rest@) =~= all.skip(done + 1));
            assert forall|i: int| 0 <= i < rest@.len() implies (#[trigger] rest@[i]).0
                < u64::MAX by {
                assert(rest@[i] == before[i + 1]);
            }
            assert(before[0].0 < u64::MAX);
        }
        if id + 1 > next_id {
            next_id = id + 1;
        }
        let mut at: usize = ids.len();
        while at > 0 && ids[at - 1] < id
            invariant
                at <= ids@.len(),
                ids@.len() == placed.len(),
                forall|i: int| 0 <= i < placed.len() ==> (#[trigger] placed[i]).0 == ids@[i],
                forall|i: int| at <= i < placed.len() ==> (#[trigger] placed[i]).0 < id,
            decreases at,
        {
            at = at - 1;
            assert(placed[at as int].0 == ids@[at as int]);
        }
        proof {
            if at > 0 {
                assert(placed[at - 1].0 == ids@[at - 1]);
            }
            lemma_place_table(placed, at as int, t);
        }
        let ghost ids_before = ids@;
        let ghost tables_before = tables@;
        ids.insert(at, id);
        tables.insert(at, table);
        proof {
            let now = placed.insert(at as int, t);
            assert forall|i: int| 0 <= i < now.len() implies (#[trigger] now[i]).0 == ids@[i]
                && now[i].1 == tables@[i]@ by {
                if i < at {
                    assert(now[i] == placed[i]);
                } else if i > at {
                    assert(now[i] == placed[i - 1]);
                }
            }
            placed = now;
            done = done + 1;
        }
    }
    proof {
        assert(all.take(done) =~= all);
        assert(tables_view(tables@) =~= tables_of(placed));
    }
    (tables, next_id)
}

proof fn lemma_place_table(s: Seq<(u64, TableModel)>, at: int, t: (u64, TableModel))
    requires
        0 <= at <= s.len(),
        at > 0 ==> s[at - 1].0 >= t.0,
        forall|i: int| at <= i < s.len() ==> (#[trigger] s[i]).0 < t.0,
    ensures
        place_table(s, t) == s.insert(at, t),
    decreases s.len(),
{
    if s.len() == 0 {
        assert(seq![t] =~= s.insert(at, t));
    } else if at == s.len() {
        assert(s.push(t) =~= s.insert(at, t));
    } else {
        assert(s[s.len() - 1].0 < t.0);
        lemma_place_table(s.drop_last(), at, t);
        assert(s.drop_last().insert(at, t).push(s.last()) =~= s.insert(at, t));
    }
}

proof fn lemma_replay_fails(r: ReplayModel, entries: Seq<WalEntryModel>, n: int)
    requires
        0 <= n <= entries.len(),
        replay(r, entries.take(n)) is Err,
    ensures
        replay(r, entries) == replay(r, entries.take(n)),
    decreases entries.len(),
{
    if n == entries.len() {
        assert(entries.take(n) =~= entries);
    } else {
        assert(entries.drop_last().take(n) =~= entries.take(n));
        lemma_replay_fails(r, entries.drop_last(), n);
    }
}

proof fn lemma_replay_writes_fails(
    s: Seq<Pair>,
    sequence: u64,
    writes: Seq<WalEntryModel>,
    n: int,
)
    requires
        0 <= n <= writes.len(),
        replay_writes(s, sequence, writes.take(n)) is Err,
    ensures
        replay_writes(s, sequence, writes) == replay_writes(s, sequence, writes.take(n)),
    decreases writes.len(),
{
    if n == writes.len() {
        assert(writes.take(n) =~= writes);
    } else {
        assert(writes.drop_last().take(n) =~= writes.take(n));
        lemma_replay_writes_fails(s, sequence, writes.drop_last(), n);
    }
}

/// Putting a pair into a memtable adds the footprint of the pair to its size, and takes away that
/// of the pair it replaces.
pub proof fn law_size_follows_the_memtable(s: Seq<Pair>, p: Pair)
    requires
        sorted(s),
    ensures
        total_footprint(put_pair(s, p)) == total_footprint(s) + footprint(p.0, p.1) - (if as_map(
            s,
        ).contains_key(p.0) {
            footprint(p.0, as_map(s)[p.0])
        } else {
            0
        }),
    decreases s.len(),
{
    let t = put_pair(s, p);
    if s.len() == 0 {
        assert(t.drop_last() =~= s);
    } else {
        let before = s.drop_last();
        let last = s.last();
        lemma_as_map_lookup(s, p.0);
        if last.0 == p.0 {
            assert(t.drop_last() =~= before);
            assert(s[s.len() - 1].0 == p.0);
        } else if crate::bytes::key_lt(last.0, p.0) {
            assert(t.drop_last() =~= s);
            if as_map(s).contains_key(p.0) {
                let i = choose|i: int| 0 <= i < s.len() && #[trigger] s[i].0 == p.0;
                assert(crate::bytes::key_lt(s[i].0, s[s.len() - 1].0));
                crate::bytes::lemma_key_lt_asymmetric(p.0, last.0);
            }
        } else {
            law_size_follows_the_memtable(before, p);
            assert(t.drop_last() =~= put_pair(before, p));
        }
    }
}

/// What the results of the store stand for is what they hold, whole.
pub proof fn law_results_stand_for_what_they_hold(
    v: Value,
    table: usize,
    path: String,
    block: BlockRef,
    items: Vec<(Vec<u8>, Value)>,
    merge: Merge,
    strings: Seq<String>,
    i: int,
)
    ensures
        Lookup::Found(Some(v))@ == LookupModel::Found(Some(v@)),
        Lookup::Found(None)@ == LookupModel::Found(None),
        (Lookup::Read { table, path, block })@ == (LookupModel::Read {
            table: table as int,
            path: path@,
            block,
        }),
        Scan::Done(items)@ == ScanModel::Done(values_view(items@)),
        (Scan::ReadBlock { path, block, merge })@ == (ScanModel::ReadBlock {
            path: path@,
            block,
            merge: merge@,
        }),
        strings_view(strings).len() == strings.len(),
        0 <= i < strings.len() ==> strings_view(strings)[i] == strings[i]@,
{
}

/// What the steps of the store stand for is what they hold, whole.
pub proof fn law_steps_stand_for_what_they_hold(
    bytes: Vec<u8>,
    commit: Commit,
    path: String,
    table: NewTable,
    block: BlockRef,
    merge: Merge,
    merged: MergedTable,
    paths: Vec<String>,
    len: u64,
)
    ensures
        (Step::Append { bytes, commit })@ == (StepModel::Append { bytes: bytes@, commit: commit@ }),
        (Step::Commit { bytes, commit })@ == (StepModel::Commit { bytes: bytes@, commit: commit@ }),
        (Step::CutLog { len })@ == (StepModel::CutLog { len }),
        (Step::WriteTable { path, bytes, table })@ == (StepModel::WriteTable {
            path: path@,
            bytes: bytes@,
            table: table@,
        }),
        Step::ClearLog@ == StepModel::ClearLog,
        (Step::ReadBlock { path, block, merge })@ == (StepModel::ReadBlock {
            path: path@,
            block,
            merge: merge@,
        }),
        (Step::WriteMerged { path, bytes, merged })@ == (StepModel::WriteMerged {
            path: path@,
            bytes: bytes@,
            table: merged@,
        }),
        (Step::Remove { paths })@ == (StepModel::Remove { paths: strings_view(paths@) }),
        Step::Done@ == StepModel::Done,
{
}

/// What tables stand for is each of them, in order, with its number where it has one.
pub proof fn law_tables_stand_for_each_of_them(
    tables: Seq<SsTable>,
    found: Seq<(u64, SsTable)>,
    i: int,
)
    ensures
        tables_view(tables).len() == tables.len(),
        0 <= i < tables.len() ==> tables_view(tables)[i] == tables[i]@,
        found_view(found).len() == found.len(),
        0 <= i < found.len() ==> found_view(found)[i] == (found[i].0, found[i].1@),
{
}

} // verus!
