//! The state of a table, and how each event changes it.
//!
//! A table is a state machine. Every operation ends in a step: something that has to be done
//! outside (bytes to append to the log, a file to write, a block to read) before the operation
//! can go on, or the news that it is done.

use vstd::prelude::*;
use crate::bounds::{overlaps, within, BoundModel};
use crate::entry_map::{as_map, live, put_pair, values_of};
use crate::format::{block_to_read, file_bytes, table_of, Pair, TableModel};
use crate::names::table_path;
use crate::proto::{Operation, WalEntryModel};
use crate::sstable::{block_ref, BlockRef};
use crate::value::{footprint, wrapped, EntryModel, ValueModel};
use crate::wal::{commit_entry, delete_entry, frame_bytes, put_entry};

verus! {

/// Default size at which the memtable is flushed: one mebibyte.
pub const DEFAULT_MEMTABLE_MAX_BYTES: usize = 0x10_0000;

/// Once there are more tables than this, they are compacted into one.
pub const MAX_SSTABLES: usize = 8;

/// The state of a table.
pub struct StoreModel {
    /// The memtable, in ascending key order.
    pub memtable: Seq<Pair>,
    /// The size at which the memtable is flushed.
    pub budget: usize,
    /// The last sequence number given out.
    pub sequence: u64,
    /// The directory of the table's files.
    pub dir: Seq<char>,
    /// The tables on disk, newest first.
    pub tables: Seq<TableModel>,
    /// The number of the next table file.
    pub next_id: u64,
    /// The length of the log up to and including its last commit.
    pub log_len: u64,
    /// The paths of files of compacted tables that are still to be removed, the oldest first.
    pub stale: Seq<Seq<char>>,
}

/// Writes on their way into the log, how many of them have been handed out, and in how many bytes.
pub struct CommitModel {
    pub writes: Seq<Pair>,
    pub logged: nat,
    pub bytes: u64,
}

/// A merge of tables: what has been merged so far, and the block that is next.
pub struct MergeModel {
    pub merged: Seq<Pair>,
    pub lo: BoundModel,
    pub hi: BoundModel,
    pub table: int,
    pub block: int,
}

/// What has to be done next.
pub enum StepModel {
    /// Append bytes to the log.
    Append { bytes: Seq<u8>, commit: CommitModel },
    /// Append bytes to the log and make the log durable.
    Commit { bytes: Seq<u8>, commit: CommitModel },
    /// Cut the log to a length and make that durable.
    CutLog { len: u64 },
    /// Write the file of a flushed memtable and make it durable.
    WriteTable { path: Seq<char>, bytes: Seq<u8>, table: TableModel },
    /// Empty the log.
    ClearLog,
    /// Read a block of a table that is being merged.
    ReadBlock { path: Seq<char>, block: BlockRef, merge: MergeModel },
    /// Write the file of a merged table and make it durable.
    WriteMerged { path: Seq<char>, bytes: Seq<u8>, table: TableModel },
    /// Remove files that are no longer needed, in this order.
    Remove { paths: Seq<Seq<char>> },
    /// Nothing.
    Done,
}

// ---- the memtable ----

/// The sum of the footprints of some pairs.
pub open spec fn total_footprint(s: Seq<Pair>) -> nat
    decreases s.len(),
{
    if s.len() == 0 {
        0
    } else {
        total_footprint(s.drop_last()) + footprint(s.last().0, s.last().1)
    }
}

/// `s` with some pairs put in their places, in order.
pub open spec fn put_all(s: Seq<Pair>, pairs: Seq<Pair>) -> Seq<Pair>
    decreases pairs.len(),
{
    if pairs.len() == 0 {
        s
    } else {
        put_pair(put_all(s, pairs.drop_last()), pairs.last())
    }
}

/// Whether the memtable has reached its budget.
pub open spec fn over_budget(s: StoreModel) -> bool {
    wrapped(total_footprint(s.memtable) as int) >= s.budget
}

// ---- committing ----

/// The log entry of a write.
pub open spec fn write_entry(p: Pair, sequence: u64) -> WalEntryModel {
    match p.1 {
        EntryModel::Value(v) => put_entry(p.0, v, sequence),
        EntryModel::Tombstone => delete_entry(p.0, sequence),
    }
}

/// A length in bytes with `n` more, or the largest length if that is too much.
pub open spec fn extended(len: u64, n: nat) -> u64 {
    if len + n > u64::MAX {
        u64::MAX
    } else {
        (len + n) as u64
    }
}

/// A commit with `bytes` more of it handed out.
pub open spec fn handed_out(c: CommitModel, bytes: Seq<u8>) -> CommitModel {
    CommitModel { bytes: extended(c.bytes, bytes.len()), ..c }
}

/// The next write is logged under the next sequence number; after the last one comes the commit.
pub open spec fn log_step(s: StoreModel, c: CommitModel) -> (StoreModel, StepModel) {
    if c.logged < c.writes.len() {
        let sequence = (s.sequence + 1) as u64;
        let bytes = frame_bytes(write_entry(c.writes[c.logged as int], sequence));
        (
            StoreModel { sequence, ..s },
            StepModel::Append {
                bytes,
                commit: handed_out(CommitModel { logged: c.logged + 1, ..c }, bytes),
            },
        )
    } else {
        let bytes = frame_bytes(commit_entry(s.sequence));
        (s, StepModel::Commit { bytes, commit: handed_out(c, bytes) })
    }
}

/// Once the log holds them durably, the writes go into the memtable, which is flushed if it has
/// reached its budget.
pub open spec fn committed_step(s: StoreModel, c: CommitModel) -> (StoreModel, StepModel) {
    let next = StoreModel {
        memtable: put_all(s.memtable, c.writes),
        log_len: extended(s.log_len, c.bytes as nat),
        ..s
    };
    if over_budget(next) {
        flush_step(next)
    } else {
        (next, StepModel::Done)
    }
}

/// A commit that failed is taken back: the log is cut to what was committed before.
pub open spec fn commit_failed_step(s: StoreModel) -> StepModel {
    StepModel::CutLog { len: s.log_len }
}

// ---- flushing ----

/// A memtable that is not empty is laid out as the next table file.
pub open spec fn flush_step(s: StoreModel) -> (StoreModel, StepModel) {
    if s.memtable.len() == 0 {
        (s, StepModel::Done)
    } else {
        let path = table_path(s.dir, s.next_id);
        (
            s,
            StepModel::WriteTable {
                path,
                bytes: file_bytes(s.memtable),
                table: table_of(path, s.memtable),
            },
        )
    }
}

/// Once its file is durable, the table takes the place of the memtable, and the log can go.
pub open spec fn table_written_step(s: StoreModel, table: TableModel) -> (StoreModel, StepModel) {
    (
        StoreModel {
            memtable: Seq::empty(),
            tables: seq![table] + s.tables,
            next_id: (s.next_id + 1) as u64,
            ..s
        },
        StepModel::ClearLog,
    )
}

/// Once the log is empty, the tables are compacted if there are too many.
pub open spec fn log_cleared_step(s: StoreModel) -> (StoreModel, StepModel) {
    let next = StoreModel { log_len: 0, ..s };
    if s.tables.len() > MAX_SSTABLES {
        compact_step(next)
    } else {
        (next, StepModel::Done)
    }
}

// ---- merging and compacting ----

/// Whether a table can hold a key within the bounds.
pub open spec fn may_hold(t: TableModel, lo: BoundModel, hi: BoundModel) -> bool {
    match t.range {
        Some((min, max)) => overlaps(min, max, lo, hi),
        None => true,
    }
}

/// The first block at or after block `b` of table `t` that a merge reads. Tables are read from
/// the oldest to the newest; those that can hold nothing within the bounds are passed over.
pub open spec fn next_read(
    tables: Seq<TableModel>,
    t: int,
    b: int,
    lo: BoundModel,
    hi: BoundModel,
) -> Option<(int, int)>
    decreases t + 1,
{
    if t < 0 {
        None
    } else if may_hold(tables[t], lo, hi) && b < tables[t].index.len() {
        Some((t, b))
    } else {
        next_read(tables, t - 1, 0, lo, hi)
    }
}

/// The pairs whose key lies within the bounds.
pub open spec fn select(pairs: Seq<Pair>, lo: BoundModel, hi: BoundModel) -> Seq<Pair>
    decreases pairs.len(),
{
    if pairs.len() == 0 {
        Seq::empty()
    } else if within(pairs.last().0, lo, hi) {
        select(pairs.drop_last(), lo, hi).push(pairs.last())
    } else {
        select(pairs.drop_last(), lo, hi)
    }
}

/// The merge of all `tables` within the bounds, before any block of it has been read.
pub open spec fn merge_start(tables: Seq<TableModel>, lo: BoundModel, hi: BoundModel) -> MergeModel {
    MergeModel { merged: Seq::empty(), lo, hi, table: tables.len() - 1, block: 0 }
}

/// The merge after the pairs of its next block.
pub open spec fn merge_after(m: MergeModel, pairs: Seq<Pair>) -> MergeModel {
    MergeModel {
        merged: put_all(m.merged, select(pairs, m.lo, m.hi)),
        block: m.block + 1,
        ..m
    }
}

/// The merge moved on to the next block that it reads.
pub open spec fn merge_at(m: MergeModel, t: int, b: int) -> MergeModel {
    MergeModel { table: t, block: b, ..m }
}

/// The paths of some tables.
pub open spec fn paths_of(tables: Seq<TableModel>) -> Seq<Seq<char>> {
    Seq::new(tables.len(), |i: int| tables[i].path)
}

/// The paths of some tables, the oldest first: the order in which their files are removed. A
/// deletion marker then goes only after every older value of its key.
pub open spec fn removal_order(tables: Seq<TableModel>) -> Seq<Seq<char>> {
    paths_of(tables).reverse()
}

/// Two tables or more are merged into one.
pub open spec fn compact_step(s: StoreModel) -> (StoreModel, StepModel) {
    if s.tables.len() < 2 {
        (s, StepModel::Done)
    } else {
        merge_step(s, merge_start(s.tables, BoundModel::Unbounded, BoundModel::Unbounded))
    }
}

/// A compaction reads its next block; after the last one it is finished.
pub open spec fn merge_step(s: StoreModel, m: MergeModel) -> (StoreModel, StepModel) {
    match next_read(s.tables, m.table, m.block, m.lo, m.hi) {
        Some((t, b)) => (
            s,
            StepModel::ReadBlock {
                path: s.tables[t].path,
                block: block_ref(s.tables[t], b),
                merge: merge_at(m, t, b),
            },
        ),
        None => merge_finish(s, m.merged),
    }
}

/// A store whose tables have been replaced by `tables`. The files of the old ones are to be removed,
/// after those that are left from before.
pub open spec fn replaced(s: StoreModel, tables: Seq<TableModel>) -> StoreModel {
    StoreModel { tables, stale: s.stale + removal_order(s.tables), ..s }
}

/// A finished merge drops the deletion markers: a full merge leaves nothing older for them to
/// shadow. If nothing is left, no table is needed.
pub open spec fn merge_finish(s: StoreModel, merged: Seq<Pair>) -> (StoreModel, StepModel) {
    let kept = live(merged);
    let path = table_path(s.dir, s.next_id);
    if kept.len() == 0 {
        let next = replaced(s, Seq::empty());
        (next, StepModel::Remove { paths: next.stale })
    } else {
        (s, StepModel::WriteMerged { path, bytes: file_bytes(kept), table: table_of(path, kept) })
    }
}

/// Once its file is durable, the merged table takes the place of all others, and their files can
/// go.
pub open spec fn merged_written_step(s: StoreModel, table: TableModel) -> (StoreModel, StepModel) {
    let next = StoreModel { next_id: (s.next_id + 1) as u64, ..replaced(s, seq![table]) };
    (next, StepModel::Remove { paths: next.stale })
}

/// The first `n` files to be removed are gone. Those that are left are removed with the files of the
/// next compaction.
pub open spec fn removed_step(s: StoreModel, n: nat) -> (StoreModel, StepModel) {
    (StoreModel { stale: s.stale.skip(n as int), ..s }, StepModel::Done)
}

// ---- scanning ----

/// How far a scan has come.
pub enum ScanModel {
    /// It needs a block of a table.
    ReadBlock { path: Seq<char>, block: BlockRef, merge: MergeModel },
    /// It is done.
    Done(Seq<(Seq<u8>, ValueModel)>),
}

/// A scan reads its next block, or, after the last one, puts the memtable on top and gives every
/// key that holds a value, in order.
pub open spec fn scan_step(s: StoreModel, m: MergeModel) -> ScanModel {
    match next_read(s.tables, m.table, m.block, m.lo, m.hi) {
        Some((t, b)) => ScanModel::ReadBlock {
            path: s.tables[t].path,
            block: block_ref(s.tables[t], b),
            merge: merge_at(m, t, b),
        },
        None => ScanModel::Done(values_of(put_all(m.merged, select(s.memtable, m.lo, m.hi)))),
    }
}

// ---- looking up ----

/// How far a lookup has come.
pub enum LookupModel {
    /// It is done.
    Found(Option<ValueModel>),
    /// It needs a block of a table.
    Read { table: int, path: Seq<char>, block: BlockRef },
}

/// The value of an entry; a deletion marker has none.
pub open spec fn entry_value(e: EntryModel) -> Option<ValueModel> {
    match e {
        EntryModel::Value(v) => Some(v),
        EntryModel::Tombstone => None,
    }
}

/// A lookup in the memtable first, then in the tables, newest first.
pub open spec fn lookup_start(s: StoreModel, key: Seq<u8>) -> LookupModel {
    if as_map(s.memtable).contains_key(key) {
        LookupModel::Found(entry_value(as_map(s.memtable)[key]))
    } else {
        lookup_from(s.tables, 0, key)
    }
}

/// A lookup in the tables from the `i`-th on: the first block that has to be read.
pub open spec fn lookup_from(tables: Seq<TableModel>, i: int, key: Seq<u8>) -> LookupModel
    decreases tables.len() - i,
{
    if i >= tables.len() {
        LookupModel::Found(None)
    } else {
        match block_to_read(tables[i], key) {
            Some(b) => LookupModel::Read {
                table: i,
                path: tables[i].path,
                block: block_ref(tables[i], b),
            },
            None => lookup_from(tables, i + 1, key),
        }
    }
}

/// A lookup that has read a block of the `i`-th table: done if the block holds the key, else on
/// to the next table.
pub open spec fn lookup_after(
    tables: Seq<TableModel>,
    i: int,
    key: Seq<u8>,
    found: Option<EntryModel>,
) -> LookupModel {
    match found {
        Some(e) => LookupModel::Found(entry_value(e)),
        None => lookup_from(tables, i + 1, key),
    }
}

// ---- recovery ----

/// What replaying a log has led to: the memtable, the highest sequence number seen, and the
/// entries that no commit has been seen for yet.
pub struct ReplayModel {
    pub memtable: Seq<Pair>,
    pub sequence: u64,
    pub pending: Seq<WalEntryModel>,
}

/// A replay that cannot go on: the memtable and the sequence number as they are by then, and the
/// reason.
pub struct ReplayFailure {
    pub memtable: Seq<Pair>,
    pub sequence: u64,
    pub text: Seq<char>,
}

/// The larger of two sequence numbers.
pub open spec fn later(a: u64, b: u64) -> u64 {
    if a >= b {
        a
    } else {
        b
    }
}

/// How a value without a kind is reported.
pub open spec fn no_kind() -> Seq<char> {
    "value message has no kind set"@
}

/// A memtable with one logged write applied. A put without a value changes nothing.
pub open spec fn replay_write(s: Seq<Pair>, e: WalEntryModel) -> Result<Seq<Pair>, Seq<char>> {
    if e.op() == Operation::Delete {
        Ok(put_pair(s, (e.key, EntryModel::Tombstone)))
    } else {
        match e.value {
            None => Ok(s),
            Some(None) => Err(no_kind()),
            Some(Some(v)) => Ok(put_pair(s, (e.key, EntryModel::Value(v)))),
        }
    }
}

/// A memtable and sequence number with some logged writes applied, in order.
pub open spec fn replay_writes(s: Seq<Pair>, sequence: u64, writes: Seq<WalEntryModel>) -> Result<
    (Seq<Pair>, u64),
    ReplayFailure,
>
    decreases writes.len(),
{
    if writes.len() == 0 {
        Ok((s, sequence))
    } else {
        match replay_writes(s, sequence, writes.drop_last()) {
            Err(f) => Err(f),
            Ok((m, q)) => match replay_write(m, writes.last()) {
                Err(text) => Err(ReplayFailure { memtable: m, sequence: q, text }),
                Ok(m2) => Ok((m2, later(q, writes.last().sequence))),
            },
        }
    }
}

/// Replay of one entry: writes wait for their commit, which applies them.
pub open spec fn replay_entry(r: ReplayModel, e: WalEntryModel) -> Result<
    ReplayModel,
    ReplayFailure,
> {
    if e.op() == Operation::Commit {
        match replay_writes(r.memtable, r.sequence, r.pending) {
            Err(f) => Err(f),
            Ok((m, q)) => Ok(
                ReplayModel {
                    memtable: m,
                    sequence: later(q, e.sequence),
                    pending: Seq::empty(),
                },
            ),
        }
    } else {
        Ok(ReplayModel { pending: r.pending.push(e), ..r })
    }
}

/// Replay of some entries, in order.
pub open spec fn replay(r: ReplayModel, entries: Seq<WalEntryModel>) -> Result<
    ReplayModel,
    ReplayFailure,
>
    decreases entries.len(),
{
    if entries.len() == 0 {
        Ok(r)
    } else {
        match replay(r, entries.drop_last()) {
            Err(f) => Err(f),
            Ok(q) => replay_entry(q, entries.last()),
        }
    }
}

/// Some numbered tables, the highest number first; of those with the same number, the one that
/// was found first comes first.
pub open spec fn newest_first(found: Seq<(u64, TableModel)>) -> Seq<(u64, TableModel)>
    decreases found.len(),
{
    if found.len() == 0 {
        Seq::empty()
    } else {
        place_table(newest_first(found.drop_last()), found.last())
    }
}

/// Tables in order with one more in its place, after all whose number is not lower.
pub open spec fn place_table(
    s: Seq<(u64, TableModel)>,
    t: (u64, TableModel),
) -> Seq<(u64, TableModel)>
    decreases s.len(),
{
    if s.len() == 0 {
        seq![t]
    } else if s.last().0 >= t.0 {
        s.push(t)
    } else {
        place_table(s.drop_last(), t).push(s.last())
    }
}

/// The tables of some numbered tables.
pub open spec fn tables_of(s: Seq<(u64, TableModel)>) -> Seq<TableModel> {
    Seq::new(s.len(), |i: int| s[i].1)
}

/// One more than the highest number of some tables; one if there are none.
pub open spec fn next_number(found: Seq<(u64, TableModel)>) -> int
    decreases found.len(),
{
    if found.len() == 0 {
        1
    } else {
        let n = next_number(found.drop_last());
        if found.last().0 + 1 > n {
            found.last().0 + 1
        } else {
            n
        }
    }
}

} // verus!
