//! Laws of writing: what a commit makes durable, that flushing and compacting change no value,
//! and that a crash between two steps costs nothing.

use vstd::prelude::*;
use crate::bounds::BoundModel;
use crate::entry_map::{as_map, lemma_live, lemma_live_lookup, live, sorted};
use crate::format::{file_bytes, pairs_in_block, table_of, Pair, TableModel};
use crate::log_laws::{
    framable, law_crash_leaves_all_or_nothing, law_recovery_keeps_the_committed, no_commit,
    recovered,
};
use crate::model::{
    commit_failed_step, committed_step, compact_step, extended, flush_step, log_cleared_step,
    log_step, merge_after, merge_at, merge_finish, merge_start, merge_step, merged_written_step,
    newest_first, next_number, next_read, over_budget, place_table, removal_order, removed_step,
    replaced, put_all, replay, replay_writes, table_written_step, tables_of, total_footprint,
    write_entry, CommitModel, MergeModel, ReplayFailure, ReplayModel, StepModel, StoreModel,
    DEFAULT_MEMTABLE_MAX_BYTES, MAX_SSTABLES,
};
use crate::names::{joined, law_table_name_gives_back_its_number, table_name, table_path};
use crate::proto::{Operation, WalEntryModel};
use crate::read_laws::{
    all_hold, blocks_left, holds, layered, lemma_next_read, lemma_whole_merge, merged_from, overlay,
    read_block, run_merge, value_in, value_of,
};
use crate::sstable::block_ref;
use crate::table_laws::fits;
use crate::value::{footprint, lemma_wrapped_near, EntryModel};
use crate::wal::{commit_entry, committed, committed_len, frame_bytes, log_bytes, log_entries};

verus! {

// ---- the log ----

/// Replay before the first entry.
pub open spec fn blank_replay() -> ReplayModel {
    ReplayModel { memtable: Seq::empty(), sequence: 0, pending: Seq::empty() }
}

/// Whether replaying `log` gives the memtable, and no sequence number above `sequence`.
pub open spec fn log_holds(log: Seq<u8>, memtable: Seq<Pair>, sequence: u64) -> bool {
    &&& recovered(log)
    &&& replay(blank_replay(), log_entries(log)) matches Ok(r) && r.memtable == memtable
        && r.pending.len() == 0 && r.sequence <= sequence
}

/// The log entries of some writes from the `i`-th on, numbered after `sequence`, and of the
/// commit that ends them.
pub open spec fn batch(writes: Seq<Pair>, i: nat, sequence: u64) -> Seq<WalEntryModel>
    decreases writes.len() - i,
{
    if i < writes.len() {
        let next = (sequence + 1) as u64;
        seq![write_entry(writes[i as int], next)] + batch(writes, i + 1, next)
    } else {
        seq![commit_entry(sequence)]
    }
}

/// What a commit comes to when every append it asks for is made: the state and the commit just
/// before the last step is reported, and all bytes appended to the log.
pub open spec fn run_commit(s: StoreModel, c: CommitModel) -> (StoreModel, CommitModel, Seq<u8>)
    decreases c.writes.len() - c.logged,
{
    let (next, step) = log_step(s, c);
    match step {
        StepModel::Append { bytes, commit } => if c.logged < c.writes.len() {
            let (last, done, rest) = run_commit(next, commit);
            (last, done, bytes + rest)
        } else {
            (next, commit, Seq::empty())
        },
        StepModel::Commit { bytes, commit } => (next, commit, bytes),
        _ => (next, c, Seq::empty()),
    }
}

/// What a commit comes to: the numbers it gives out, and its entries in the log.
pub proof fn lemma_run_commit(s: StoreModel, c: CommitModel)
    requires
        c.logged <= c.writes.len(),
        s.sequence + c.writes.len() - c.logged <= u64::MAX,
    ensures
        run_commit(s, c).0 == (StoreModel {
            sequence: (s.sequence + c.writes.len() - c.logged) as u64,
            ..s
        }),
        run_commit(s, c).1.writes == c.writes,
        run_commit(s, c).1.bytes == extended(c.bytes, run_commit(s, c).2.len()),
        run_commit(s, c).2 == log_bytes(batch(c.writes, c.logged, s.sequence)),
    decreases c.writes.len() - c.logged,
{
    let es = batch(c.writes, c.logged, s.sequence);
    if c.logged < c.writes.len() {
        let next = log_step(s, c).0;
        let c2 = log_step(s, c).1->Append_commit;
        lemma_run_commit(next, c2);
        let rest = batch(c.writes, c.logged + 1, next.sequence);
        assert(es.skip(1) =~= rest);
        assert(es[0] == write_entry(c.writes[c.logged as int], next.sequence));
    } else {
        assert(es.skip(1) =~= Seq::<WalEntryModel>::empty());
        assert(log_bytes(es.skip(1)) =~= Seq::<u8>::empty());
        assert(log_bytes(es) =~= frame_bytes(es[0]));
    }
}

/// The log entries of some writes, numbered after `sequence`.
pub open spec fn write_entries(writes: Seq<Pair>, sequence: u64) -> Seq<WalEntryModel> {
    Seq::new(writes.len(), |i: int| write_entry(writes[i], (sequence + 1 + i) as u64))
}

proof fn lemma_batch(writes: Seq<Pair>, i: nat, start: u64, sequence: u64)
    requires
        i <= writes.len(),
        sequence == start + i,
        start + writes.len() <= u64::MAX,
    ensures
        batch(writes, i, sequence) == write_entries(writes, start).skip(i as int).push(
            commit_entry((start + writes.len()) as u64),
        ),
    decreases writes.len() - i,
{
    let all = write_entries(writes, start);
    if i < writes.len() {
        lemma_batch(writes, i + 1, start, (sequence + 1) as u64);
        assert(batch(writes, i, sequence) =~= all.skip(i as int).push(
            commit_entry((start + writes.len()) as u64),
        ));
    } else {
        assert(batch(writes, i, sequence) =~= all.skip(i as int).push(
            commit_entry((start + writes.len()) as u64),
        ));
    }
}

/// Replaying one log after another is replaying both together.
pub proof fn lemma_replay_concat(r: ReplayModel, a: Seq<WalEntryModel>, b: Seq<WalEntryModel>)
    ensures
        replay(r, a + b) == (match replay(r, a) {
            Ok(q) => replay(q, b),
            Err(text) => Err(text),
        }),
    decreases b.len(),
{
    if b.len() == 0 {
        assert(a + b =~= a);
    } else {
        assert((a + b).drop_last() =~= a + b.drop_last());
        lemma_replay_concat(r, a, b.drop_last());
    }
}

proof fn lemma_replay_pending(r: ReplayModel, writes: Seq<WalEntryModel>)
    requires
        no_commit(writes),
    ensures
        replay(r, writes) == Ok::<ReplayModel, ReplayFailure>(
            ReplayModel { pending: r.pending + writes, ..r },
        ),
    decreases writes.len(),
{
    if writes.len() == 0 {
        assert(r.pending + writes =~= r.pending);
    } else {
        let before = writes.drop_last();
        assert forall|i: int| 0 <= i < before.len() implies (#[trigger] before[i]).op()
            != Operation::Commit by {
            assert(before[i] == writes[i]);
        }
        lemma_replay_pending(r, before);
        assert(writes[writes.len() - 1].op() != Operation::Commit);
        assert((r.pending + before).push(writes.last()) =~= r.pending + writes);
    }
}

proof fn lemma_replay_own_writes(memtable: Seq<Pair>, q: u64, writes: Seq<Pair>, sequence: u64)
    requires
        sequence + writes.len() <= u64::MAX,
        q <= sequence,
    ensures
        replay_writes(memtable, q, write_entries(writes, sequence)) matches Ok((m, top)) && m
            == put_all(memtable, writes) && top <= sequence + writes.len(),
    decreases writes.len(),
{
    let es = write_entries(writes, sequence);
    if writes.len() > 0 {
        let before = writes.drop_last();
        lemma_replay_own_writes(memtable, q, before, sequence);
        assert(es.drop_last() =~= write_entries(before, sequence));
        assert(es.last() == write_entry(writes.last(), (sequence + writes.len()) as u64));
    }
}

proof fn lemma_write_entries_no_commit(writes: Seq<Pair>, sequence: u64)
    ensures
        no_commit(write_entries(writes, sequence)),
{
}

/// A commit is durable and atomic. Once all its bytes are in the log, replaying the log gives the
/// memtable with all its writes. If a crash lets only some of the bytes through, replaying what
/// recovery keeps gives the memtable as it was before.
pub proof fn law_commit_is_durable_and_atomic(
    log: Seq<u8>,
    s: StoreModel,
    writes: Seq<Pair>,
    n: int,
)
    requires
        log_holds(log, s.memtable, s.sequence),
        s.sequence + writes.len() <= u64::MAX,
        framable(batch(writes, 0, s.sequence)),
        0 <= n <= run_commit(s, CommitModel { writes, logged: 0, bytes: 0 }).2.len(),
    ensures
        ({
            let c = CommitModel { writes, logged: 0, bytes: 0 };
            let (last, done, bytes) = run_commit(s, c);
            let crashed = log + bytes.take(n);
            let kept = crashed.take(committed_len(crashed) as int);
            &&& committed_len(crashed) <= crashed.len()
            &&& log_holds(log + bytes, put_all(s.memtable, writes), last.sequence)
            &&& s.log_len == log.len() && log.len() + bytes.len() <= u64::MAX ==> extended(
                last.log_len,
                done.bytes as nat,
            ) == (log + bytes).len()
            &&& n < bytes.len() ==> log_holds(kept, s.memtable, s.sequence)
            &&& n == bytes.len() ==> kept == log + bytes
        }),
{
    let c = CommitModel { writes, logged: 0, bytes: 0 };
    let (last, done, bytes) = run_commit(s, c);
    let crashed = log + bytes.take(n);
    let kept = crashed.take(committed_len(crashed) as int);
    lemma_run_commit(s, c);
    lemma_batch(writes, 0, s.sequence, s.sequence);
    let ops = write_entries(writes, s.sequence);
    assert(ops.skip(0) =~= ops);
    lemma_write_entries_no_commit(writes, s.sequence);
    let q = last.sequence;
    assert(batch(writes, 0, s.sequence) == ops.push(commit_entry(q)));
    let full = bytes.len() as int;
    law_crash_leaves_all_or_nothing(log, ops, q, full);
    law_crash_leaves_all_or_nothing(log, ops, q, n);
    assert(bytes.take(full) =~= bytes);
    law_recovery_keeps_the_committed(crashed);
    law_recovery_keeps_the_committed(log + bytes);
    // The whole log, replayed.
    let r = replay(blank_replay(), log_entries(log))->Ok_0;
    assert(r.pending =~= Seq::<WalEntryModel>::empty());
    let all = log_entries(log) + ops.push(commit_entry(q));
    lemma_replay_concat(blank_replay(), log_entries(log), ops.push(commit_entry(q)));
    lemma_replay_pending(r, ops);
    assert(ops.push(commit_entry(q)).drop_last() =~= ops);
    assert(r.pending + ops =~= ops);
    lemma_replay_own_writes(s.memtable, r.sequence, writes, s.sequence);
    assert((log + bytes).take((log + bytes).len() as int) =~= log + bytes);
    assert(log_entries(log + bytes) == all);
    if n == full {
        assert(crashed == log + bytes);
        assert(committed_len(crashed) == crashed.len());
        assert(kept =~= log + bytes);
    }
}

/// A commit that fails leaves nothing behind. Whatever of it has reached the log by then, cutting
/// the log as the failure asks for brings back the log as it was, which holds the memtable; and the
/// memtable and the tables are as they were.
pub proof fn law_failed_commit_leaves_nothing(
    log: Seq<u8>,
    s: StoreModel,
    failed: StoreModel,
    reached: Seq<u8>,
)
    requires
        log_holds(log, s.memtable, s.sequence),
        s.log_len == log.len(),
        failed == (StoreModel { sequence: failed.sequence, ..s }),
        failed.sequence >= s.sequence,
    ensures
        commit_failed_step(failed) == (StepModel::CutLog { len: log.len() as u64 }),
        (log + reached).take(failed.log_len as int) == log,
        log_holds(
            (log + reached).take(failed.log_len as int),
            failed.memtable,
            failed.sequence,
        ),
{
    assert((log + reached).take(failed.log_len as int) =~= log);
}

/// While a commit is being logged, nothing changes but the sequence number, which grows: a commit
/// can fail after any of its steps.
pub proof fn law_logging_only_takes_numbers(s: StoreModel, c: CommitModel, steps: nat)
    requires
        c.logged + steps <= c.writes.len(),
        s.sequence + steps <= u64::MAX,
    ensures
        after_appends(s, c, steps) == (StoreModel { sequence: (s.sequence + steps) as u64, ..s }),
    decreases steps,
{
    if steps > 0 {
        let (next, step) = log_step(s, c);
        law_logging_only_takes_numbers(next, step->Append_commit, (steps - 1) as nat);
    }
}

/// The state of a store after some of the appends of a commit.
pub open spec fn after_appends(s: StoreModel, c: CommitModel, steps: nat) -> StoreModel
    decreases steps,
{
    if steps == 0 {
        s
    } else {
        match log_step(s, c) {
            (next, StepModel::Append { bytes, commit }) => after_appends(
                next,
                commit,
                (steps - 1) as nat,
            ),
            (next, _) => next,
        }
    }
}

/// The empty log stands for the empty memtable.
pub proof fn law_cleared_log_holds_nothing(sequence: u64)
    ensures
        log_holds(Seq::empty(), Seq::empty(), sequence),
{
    let none = Seq::<u8>::empty();
    crate::wal::lemma_frame_bounds(none);
    assert(committed_len(none) == 0);
    assert(log_entries(none) =~= Seq::<WalEntryModel>::empty());
}

proof fn lemma_replay_writes_sequence(s: Seq<Pair>, q: u64, writes: Seq<WalEntryModel>)
    ensures
        replay_writes(s, q, writes) matches Ok((m, top)) ==> q <= top && forall|i: int|
            0 <= i < writes.len() ==> (#[trigger] writes[i]).sequence <= top,
    decreases writes.len(),
{
    if writes.len() > 0 {
        let before = writes.drop_last();
        lemma_replay_writes_sequence(s, q, before);
        if let Ok((m, top)) = replay_writes(s, q, writes) {
            let (m1, top1) = replay_writes(s, q, before)->Ok_0;
            assert forall|i: int| 0 <= i < writes.len() implies (#[trigger] writes[i]).sequence
                <= top by {
                if i < before.len() {
                    assert(before[i].sequence <= top1);
                }
            }
        }
    }
}

proof fn lemma_replay_sequence(r: ReplayModel, entries: Seq<WalEntryModel>, i: int)
    requires
        0 <= i < entries.len(),
    ensures
        replay(r, entries) matches Ok(q) ==> r.sequence <= q.sequence && (entries[i].sequence
            <= q.sequence || q.pending.contains(entries[i])),
    decreases entries.len(),
{
    let before = entries.drop_last();
    let e = entries.last();
    if let Ok(q) = replay(r, entries) {
        let p = replay(r, before)->Ok_0;
        if before.len() > 0 {
            lemma_replay_sequence(r, before, if i < before.len() { i } else { 0 });
        }
        lemma_replay_writes_sequence(p.memtable, p.sequence, p.pending);
        if e.op() == Operation::Commit {
            if i < before.len() && p.pending.contains(entries[i]) {
                let j = choose|j: int| 0 <= j < p.pending.len() && p.pending[j] == entries[i];
                assert(p.pending[j].sequence <= q.sequence);
            }
        } else {
            if i < before.len() {
                if p.pending.contains(entries[i]) {
                    let j = choose|j: int|
                        0 <= j < p.pending.len() && p.pending[j] == entries[i];
                    assert(q.pending[j] == entries[i]);
                }
            } else {
                assert(q.pending[p.pending.len() as int] == e);
            }
        }
    }
}

/// After recovery the sequence counter is at least that of every committed entry of the log, so
/// none of their numbers is given out again while the log keeps them.
pub proof fn law_recovery_reuses_no_sequence_number(
    r: ReplayModel,
    entries: Seq<WalEntryModel>,
    i: int,
)
    requires
        0 <= i < entries.len(),
        entries.last().op() == Operation::Commit,
    ensures
        replay(r, entries) matches Ok(q) ==> entries[i].sequence <= q.sequence,
{
    lemma_replay_sequence(r, entries, i);
}

/// Until its commit is in the log, a write changes nothing that can be read: logging it takes a
/// sequence number and no more, and only the commit brings it into the memtable.
pub proof fn law_nothing_changes_before_the_commit(s: StoreModel, c: CommitModel)
    ensures
        log_step(s, c).0 == (StoreModel { sequence: log_step(s, c).0.sequence, ..s }),
        log_step(s, c).1 is Append || log_step(s, c).1 is Commit,
        log_step(s, c).1 is Commit <==> c.logged >= c.writes.len(),
{
}

/// Each write of a commit gets a sequence number higher than any before it.
pub proof fn law_sequence_numbers_ascend(s: StoreModel, c: CommitModel)
    requires
        c.logged < c.writes.len(),
        s.sequence < u64::MAX,
    ensures
        log_step(s, c).0.sequence == s.sequence + 1,
        log_step(s, c).1 is Append,
        log_step(s, c).1->Append_bytes == frame_bytes(
            write_entry(c.writes[c.logged as int], log_step(s, c).0.sequence),
        ),
{
}

// ---- the set of table files ----

/// Whether the tables of a store are numbered by `ids`: newest first, each in the file of its
/// number, and all of them before the next number.
pub open spec fn numbered(s: StoreModel, ids: Seq<u64>) -> bool {
    &&& ids.len() == s.tables.len()
    &&& forall|i: int|
        0 <= i < ids.len() ==> (#[trigger] s.tables[i]).path == table_path(s.dir, ids[i])
    &&& forall|i: int| 0 <= i < ids.len() ==> #[trigger] ids[i] < s.next_id
    &&& forall|i: int, j: int| 0 <= i < j < ids.len() ==> #[trigger] ids[i] > #[trigger] ids[j]
}

/// Different numbers have different files.
pub proof fn lemma_table_path_injective(dir: Seq<char>, a: u64, b: u64)
    requires
        table_path(dir, a) == table_path(dir, b),
    ensures
        a == b,
{
    law_table_name_gives_back_its_number(a);
    law_table_name_gives_back_its_number(b);
    let p = table_path(dir, a);
    let n = p.len() - table_name(a).len();
    assert(p.skip(n as int) =~= table_name(a));
    assert(p.skip(n as int) =~= table_name(b)) by {
        assert(table_path(dir, b).skip(
            (table_path(dir, b).len() - table_name(b).len()) as int,
        ) =~= table_name(b));
        lemma_joined_len(dir, table_name(a));
        lemma_joined_len(dir, table_name(b));
    }
}

proof fn lemma_joined_len(dir: Seq<char>, name: Seq<char>)
    ensures
        joined(dir, name).len() == joined(dir, Seq::empty()).len() + name.len(),
{
}

proof fn lemma_new_path_is_fresh(s: StoreModel, ids: Seq<u64>)
    requires
        numbered(s, ids),
    ensures
        forall|i: int|
            0 <= i < s.tables.len() ==> (#[trigger] s.tables[i]).path != table_path(
                s.dir,
                s.next_id,
            ),
{
    assert forall|i: int| 0 <= i < s.tables.len() implies (#[trigger] s.tables[i]).path
        != table_path(s.dir, s.next_id) by {
        if s.tables[i].path == table_path(s.dir, s.next_id) {
            lemma_table_path_injective(s.dir, ids[i], s.next_id);
            assert(ids[i] < s.next_id);
        }
    }
}

// ---- flushing ----

/// Flushing changes no value. The table that is written holds the memtable; once it has taken
/// the memtable's place every key has the value it had. The same holds if a crash comes after the
/// file was written and before the log was cleared, so that the memtable is replayed on top of
/// the table.
pub proof fn law_flush_changes_no_value(
    files: Map<Seq<char>, Seq<u8>>,
    s: StoreModel,
    contents: Seq<Seq<Pair>>,
    ids: Seq<u64>,
    key: Seq<u8>,
)
    requires
        sorted(s.memtable),
        s.memtable.len() > 0,
        fits(s.memtable),
        all_hold(files, s.tables, contents),
        numbered(s, ids),
        s.next_id < u64::MAX,
    ensures
        flush_step(s).1 matches StepModel::WriteTable { path, bytes, table } && ({
            let after = files.insert(path, bytes);
            let next = table_written_step(s, table).0;
            let layers = seq![s.memtable] + contents;
            &&& table_written_step(s, table).1 == StepModel::ClearLog
            &&& all_hold(after, next.tables, layers)
            &&& numbered(next, seq![s.next_id] + ids)
            &&& sorted(next.memtable)
            &&& value_of(next.memtable, layers, key) == value_of(s.memtable, contents, key)
            &&& value_of(s.memtable, layers, key) == value_of(s.memtable, contents, key)
        }),
{
    let layers = seq![s.memtable] + contents;
    lemma_add_table(files, s, contents, ids, s.memtable);
    let table = table_of(table_path(s.dir, s.next_id), s.memtable);
    let next = table_written_step(s, table).0;
    assert(layers.skip(1) =~= contents);
    assert(layers[0] == s.memtable);
}

/// After a commit, either the memtable is within its budget or it is being flushed.
pub proof fn law_memtable_stays_within_its_budget(s: StoreModel, c: CommitModel)
    ensures
        ({
            let (next, step) = committed_step(s, c);
            &&& next.memtable == put_all(s.memtable, c.writes)
            &&& step is Done ==> !over_budget(next) || next.memtable.len() == 0
            &&& !(step is Done) ==> step is WriteTable
        }),
{
}

// ---- compacting ----

/// Where the merge of a compaction stands.
pub open spec fn step_table(step: StepModel) -> int {
    match step {
        StepModel::ReadBlock { path, block, merge } => merge.table + 2,
        _ => 0,
    }
}

/// How many blocks of its present table a compaction may still read.
pub open spec fn step_blocks(tables: Seq<TableModel>, step: StepModel) -> int {
    match step {
        StepModel::ReadBlock { path, block, merge } => blocks_left(tables, merge),
        _ => 0,
    }
}

/// What a compaction comes to when every block it asks for is read from `files`.
pub open spec fn run_reads(
    files: Map<Seq<char>, Seq<u8>>,
    s: StoreModel,
    next: (StoreModel, StepModel),
) -> Result<(StoreModel, StepModel), Seq<char>>
    decreases step_table(next.1), step_blocks(s.tables, next.1),
{
    match next.1 {
        StepModel::ReadBlock { path, block, merge } => if !(0 <= merge.table < s.tables.len() && 0
            <= merge.block < s.tables[merge.table].index.len()) {
            Ok(next)
        } else {
            match pairs_in_block(block.offset, read_block(files[path], block)) {
                Err(text) => Err(text),
                Ok(pairs) => {
                    proof {
                        let m = merge_after(merge, pairs);
                        lemma_next_read(s.tables, m.table, m.block, m.lo, m.hi);
                    }
                    run_reads(files, s, merge_step(s, merge_after(merge, pairs)))
                },
            }
        },
        _ => Ok(next),
    }
}

proof fn lemma_run_reads(files: Map<Seq<char>, Seq<u8>>, s: StoreModel, m: MergeModel)
    requires
        m.table < s.tables.len(),
        0 <= m.block,
    ensures
        run_reads(files, s, merge_step(s, m)) == (match run_merge(files, s.tables, m) {
            Ok(merged) => Ok(merge_finish(s, merged)),
            Err(text) => Err(text),
        }),
    decreases m.table + 1, blocks_left(s.tables, m),
{
    lemma_next_read(s.tables, m.table, m.block, m.lo, m.hi);
    match next_read(s.tables, m.table, m.block, m.lo, m.hi) {
        None => {},
        Some((t, b)) => {
            let at = merge_at(m, t, b);
            match pairs_in_block(
                s.tables[t].index[b].block_offset,
                read_block(files[s.tables[t].path], block_ref(s.tables[t], b)),
            ) {
                Err(text) => {},
                Ok(pairs) => {
                    lemma_run_reads(files, s, merge_after(at, pairs));
                },
            }
        },
    }
}

/// The newest entry of each key in tables with the given contents, without deletion markers:
/// what a compaction keeps.
pub open spec fn compacted(contents: Seq<Seq<Pair>>) -> Seq<Pair> {
    live(
        merged_from(
            contents,
            contents.len() - 1,
            BoundModel::Unbounded,
            BoundModel::Unbounded,
            Seq::empty(),
        ),
    )
}

/// Whether no pair is a deletion marker.
pub open spec fn no_markers(s: Seq<Pair>) -> bool {
    forall|i: int| 0 <= i < s.len() ==> (#[trigger] s[i]).1 is Value
}

proof fn lemma_live_no_markers(s: Seq<Pair>)
    ensures
        no_markers(live(s)),
    decreases s.len(),
{
    if s.len() > 0 {
        lemma_live_no_markers(s.drop_last());
    }
}

/// A compaction keeps exactly the keys whose newest entry is a value, each with that value.
pub proof fn lemma_compacted(
    files: Map<Seq<char>, Seq<u8>>,
    tables: Seq<TableModel>,
    contents: Seq<Seq<Pair>>,
    key: Seq<u8>,
)
    requires
        all_hold(files, tables, contents),
    ensures
        sorted(compacted(contents)),
        no_markers(compacted(contents)),
        run_merge(
            files,
            tables,
            merge_start(tables, BoundModel::Unbounded, BoundModel::Unbounded),
        ) matches Ok(merged) && live(merged) == compacted(contents),
        as_map(compacted(contents)).contains_key(key) <==> layered(contents).contains_key(key)
            && layered(contents)[key] is Value,
        as_map(compacted(contents)).contains_key(key) ==> as_map(compacted(contents))[key]
            == layered(contents)[key],
{
    let lo = BoundModel::Unbounded;
    let hi = BoundModel::Unbounded;
    lemma_whole_merge(files, tables, contents, lo, hi, key);
    let merged = merged_from(contents, contents.len() - 1, lo, hi, Seq::empty());
    lemma_live(merged);
    lemma_live_lookup(merged, key);
    lemma_live_no_markers(merged);
}

/// Compaction changes no value. When every block has been read, the tables come to one table
/// with the newest value of each key and no deletion marker, or to none if every key is deleted.
/// Once it has taken the place of the others every key has the value it had.
pub proof fn law_compaction_changes_no_value(
    files: Map<Seq<char>, Seq<u8>>,
    s: StoreModel,
    contents: Seq<Seq<Pair>>,
    key: Seq<u8>,
)
    requires
        s.tables.len() >= 2,
        all_hold(files, s.tables, contents),
        compacted(contents).len() > 0 ==> fits(compacted(contents)) && s.next_id < u64::MAX,
    ensures
        run_reads(files, s, compact_step(s)) == Ok::<(StoreModel, StepModel), Seq<char>>(
            merge_finish_of(s, contents),
        ),
        no_markers(compacted(contents)),
        match merge_finish_of(s, contents).1 {
            StepModel::Remove { paths } => {
                &&& compacted(contents).len() == 0
                &&& paths == s.stale + removal_order(s.tables)
                &&& merge_finish_of(s, contents).0 == replaced(s, Seq::empty())
                &&& value_of(s.memtable, Seq::empty(), key) == value_of(s.memtable, contents, key)
            },
            StepModel::WriteMerged { path, bytes, table } => {
                let kept = compacted(contents);
                let next = merged_written_step(s, table).0;
                &&& kept.len() > 0
                &&& merge_finish_of(s, contents).0 == s
                &&& path == table_path(s.dir, s.next_id)
                &&& bytes == file_bytes(kept)
                &&& table == table_of(path, kept)
                &&& merged_written_step(s, table).1 == (StepModel::Remove {
                    paths: s.stale + removal_order(s.tables),
                })
                &&& next.tables == seq![table]
                &&& all_hold(files.insert(path, bytes), next.tables, seq![kept])
                &&& numbered(next, seq![s.next_id])
                &&& value_of(s.memtable, seq![kept], key) == value_of(s.memtable, contents, key)
            },
            _ => false,
        },
{
    let kept = compacted(contents);
    let path = table_path(s.dir, s.next_id);
    let start = merge_start(s.tables, BoundModel::Unbounded, BoundModel::Unbounded);
    lemma_compacted(files, s.tables, contents, key);
    lemma_run_reads(files, s, start);
    let alone = seq![kept];
    assert(alone.skip(1) =~= Seq::<Seq<Pair>>::empty());
    assert(layered(alone) =~= as_map(kept)) by {
        assert(layered(alone) == overlay(layered(alone.skip(1)), as_map(alone[0])));
    }
    if kept.len() == 0 {
        assert(as_map(kept) == Map::<Seq<u8>, EntryModel>::empty());
    } else {
        let after = files.insert(path, file_bytes(kept));
        assert(holds(after, table_of(path, kept), kept));
    }
}

/// A table that is written under the next number holds its pairs, and the others hold theirs.
pub proof fn lemma_add_table(
    files: Map<Seq<char>, Seq<u8>>,
    s: StoreModel,
    contents: Seq<Seq<Pair>>,
    ids: Seq<u64>,
    pairs: Seq<Pair>,
)
    requires
        all_hold(files, s.tables, contents),
        numbered(s, ids),
        sorted(pairs),
        fits(pairs),
        s.next_id < u64::MAX,
    ensures
        ({
            let path = table_path(s.dir, s.next_id);
            let tables = seq![table_of(path, pairs)] + s.tables;
            let next = StoreModel { tables, next_id: (s.next_id + 1) as u64, ..s };
            &&& all_hold(files.insert(path, file_bytes(pairs)), tables, seq![pairs] + contents)
            &&& numbered(next, seq![s.next_id] + ids)
        }),
{
    let path = table_path(s.dir, s.next_id);
    let after = files.insert(path, file_bytes(pairs));
    let tables = seq![table_of(path, pairs)] + s.tables;
    let next = StoreModel { tables, next_id: (s.next_id + 1) as u64, ..s };
    let layers = seq![pairs] + contents;
    lemma_new_path_is_fresh(s, ids);
    assert forall|i: int| 0 <= i < tables.len() implies holds(
        after,
        #[trigger] tables[i],
        layers[i],
    ) by {
        if i > 0 {
            assert(tables[i] == s.tables[i - 1]);
            assert(holds(files, s.tables[i - 1], contents[i - 1]));
        }
    }
    let numbers = seq![s.next_id] + ids;
    assert forall|i: int| 0 <= i < numbers.len() implies (#[trigger] next.tables[i]).path
        == table_path(next.dir, numbers[i]) by {
        if i > 0 {
            assert(next.tables[i] == s.tables[i - 1]);
        }
    }
    assert forall|i: int| 0 <= i < numbers.len() implies #[trigger] numbers[i] < next.next_id by {
        if i > 0 {
            assert(numbers[i] == ids[i - 1]);
        }
    }
    assert forall|i: int, j: int| 0 <= i < j < numbers.len() implies #[trigger] numbers[i]
        > #[trigger] numbers[j] by {
        assert(numbers[j] == ids[j - 1]);
        if i > 0 {
            assert(numbers[i] == ids[i - 1]);
        }
    }
}

/// The end of a compaction of tables with the given contents.
pub open spec fn merge_finish_of(s: StoreModel, contents: Seq<Seq<Pair>>) -> (
    StoreModel,
    StepModel,
) {
    merge_finish(
        s,
        merged_from(
            contents,
            contents.len() - 1,
            BoundModel::Unbounded,
            BoundModel::Unbounded,
            Seq::empty(),
        ),
    )
}

/// The newest layers hold for their keys what all layers hold.
pub proof fn lemma_layered_take(contents: Seq<Seq<Pair>>, n: int, key: Seq<u8>)
    requires
        0 <= n <= contents.len(),
    ensures
        layered(contents.take(n)).contains_key(key) ==> layered(contents).contains_key(key)
            && layered(contents.take(n))[key] == layered(contents)[key],
    decreases n,
{
    let newer = contents.take(n);
    if n > 0 {
        assert(newer[0] == contents[0]);
        assert(newer.skip(1) =~= contents.skip(1).take(n - 1));
        lemma_layered_take(contents.skip(1), n - 1, key);
    }
}

/// Layers over others: where both have a key, the upper ones count.
pub proof fn lemma_layered_concat(a: Seq<Seq<Pair>>, b: Seq<Seq<Pair>>, key: Seq<u8>)
    ensures
        layered(a + b).contains_key(key) <==> layered(a).contains_key(key) || layered(
            b,
        ).contains_key(key),
        layered(a).contains_key(key) ==> layered(a + b)[key] == layered(a)[key],
        !layered(a).contains_key(key) && layered(b).contains_key(key) ==> layered(a + b)[key]
            == layered(b)[key],
    decreases a.len(),
{
    if a.len() == 0 {
        assert(a + b =~= b);
    } else {
        assert((a + b)[0] == a[0]);
        assert((a + b).skip(1) =~= a.skip(1) + b);
        lemma_layered_concat(a.skip(1), b, key);
    }
}

/// Whether files that are left of compacted tables, with the contents `old_contents`, give `key` no
/// value of their own behind tables with the given contents.
pub open spec fn shadowed(
    contents: Seq<Seq<Pair>>,
    old_contents: Seq<Seq<Pair>>,
    key: Seq<u8>,
) -> bool {
    layered(contents).contains_key(key) || value_in(layered(old_contents), key) is None
}

/// Files that are left of compacted tables lose to the tables on every read: behind them, they
/// change no value.
pub proof fn law_stale_files_change_no_value(
    memtable: Seq<Pair>,
    contents: Seq<Seq<Pair>>,
    old_contents: Seq<Seq<Pair>>,
    key: Seq<u8>,
)
    requires
        shadowed(contents, old_contents, key),
    ensures
        value_of(memtable, contents + old_contents, key) == value_of(memtable, contents, key),
{
    lemma_layered_concat(contents, old_contents, key);
}

/// A compaction leaves the files of the old tables, and those left from before, shadowed by the
/// merged table, or by nothing if every key is deleted. However many of them are gone, oldest
/// first, when a crash or a failure stops their removal, they stay shadowed: a deleted key stays
/// deleted.
pub proof fn law_removal_changes_no_value(
    files: Map<Seq<char>, Seq<u8>>,
    s: StoreModel,
    contents: Seq<Seq<Pair>>,
    old_contents: Seq<Seq<Pair>>,
    removed: int,
    key: Seq<u8>,
)
    requires
        all_hold(files, s.tables, contents),
        shadowed(contents, old_contents, key),
        0 <= removed <= contents.len() + old_contents.len(),
    ensures
        ({
            let kept = compacted(contents);
            let all = contents + old_contents;
            let left = all.take(all.len() - removed);
            &&& shadowed(seq![kept], left, key)
            &&& value_of(s.memtable, seq![kept] + left, key) == value_of(s.memtable, contents, key)
            &&& kept.len() == 0 ==> shadowed(Seq::empty(), left, key) && value_of(
                s.memtable,
                left,
                key,
            ) == value_of(s.memtable, contents, key)
        }),
{
    let kept = compacted(contents);
    let all = contents + old_contents;
    let left = all.take(all.len() - removed);
    lemma_compacted(files, s.tables, contents, key);
    lemma_layered_concat(contents, old_contents, key);
    lemma_layered_take(all, all.len() - removed, key);
    let layers = seq![kept] + left;
    assert(layers.skip(1) =~= left);
    assert(layers[0] == kept);
    assert(seq![kept].skip(1) =~= Seq::<Seq<Pair>>::empty());
    assert(layered(seq![kept]).contains_key(key) <==> as_map(kept).contains_key(key)) by {
        assert(layered(seq![kept]) == overlay(layered(seq![kept].skip(1)), as_map(seq![kept][0])));
    }
    if kept.len() == 0 {
        assert(as_map(kept) == Map::<Seq<u8>, EntryModel>::empty());
    }
}

/// Files that are shadowed stay so when a table comes before the others, and when the oldest of the
/// files go.
pub proof fn law_shadows_stay(
    contents: Seq<Seq<Pair>>,
    old_contents: Seq<Seq<Pair>>,
    newer: Seq<Pair>,
    left: int,
    key: Seq<u8>,
)
    requires
        shadowed(contents, old_contents, key),
        0 <= left <= old_contents.len(),
    ensures
        shadowed(seq![newer] + contents, old_contents.take(left), key),
{
    let layers = seq![newer] + contents;
    assert(layers.skip(1) =~= contents);
    lemma_layered_take(old_contents, left, key);
}

/// The files that are removed are those of the oldest tables, and of no other: the tables before
/// them hold what they held.
pub proof fn law_removal_leaves_the_newer_tables(
    files: Map<Seq<char>, Seq<u8>>,
    s: StoreModel,
    contents: Seq<Seq<Pair>>,
    ids: Seq<u64>,
    removed: int,
)
    requires
        all_hold(files, s.tables, contents),
        numbered(s, ids),
        0 <= removed <= s.tables.len(),
    ensures
        ({
            let gone = removal_order(s.tables).take(removed).to_set();
            let n = s.tables.len() - removed;
            let next = StoreModel { tables: s.tables.take(n), ..s };
            &&& all_hold(files.remove_keys(gone), next.tables, contents.take(n))
            &&& numbered(next, ids.take(n))
        }),
{
    let order = removal_order(s.tables).take(removed);
    let gone = order.to_set();
    let n = s.tables.len() - removed;
    let next = StoreModel { tables: s.tables.take(n), ..s };
    assert forall|i: int| 0 <= i < n implies holds(
        files.remove_keys(gone),
        #[trigger] next.tables[i],
        contents.take(n)[i],
    ) by {
        assert(next.tables[i] == s.tables[i]);
        assert(holds(files, s.tables[i], contents[i]));
        if gone.contains(s.tables[i].path) {
            let k = choose|k: int| 0 <= k < order.len() && order[k] == s.tables[i].path;
            let j = s.tables.len() - 1 - k;
            assert(order[k] == s.tables[j].path);
            lemma_table_path_injective(s.dir, ids[i], ids[j]);
            assert(ids[i] > ids[j]);
        }
    }
    assert forall|i: int| 0 <= i < n implies (#[trigger] next.tables[i]).path == table_path(
        next.dir,
        ids.take(n)[i],
    ) by {
        assert(next.tables[i] == s.tables[i]);
    }
}

/// A compaction leaves one table, or none if every key is deleted. Once all files to be removed are
/// gone, none is left over.
pub proof fn law_compaction_leaves_one_table(s: StoreModel, table: TableModel)
    ensures
        merged_written_step(s, table).0.tables == seq![table],
        replaced(s, Seq::empty()).tables == Seq::<TableModel>::empty(),
        removed_step(s, s.stale.len()).0.stale == Seq::<Seq<char>>::empty(),
{
    assert(s.stale.skip(s.stale.len() as int) =~= Seq::<Seq<char>>::empty());
}

/// A flush leaves at most as many tables as are allowed, or compacts them.
pub proof fn law_table_count_is_bounded(s: StoreModel)
    ensures
        log_cleared_step(s).1 is Done ==> log_cleared_step(s).0.tables.len() <= MAX_SSTABLES,
        s.tables.len() > MAX_SSTABLES ==> log_cleared_step(s) == compact_step(
            StoreModel { log_len: 0, ..s },
        ),
{
}

// ---- reopening ----

/// The tables of a store with their numbers.
pub open spec fn numbered_tables(s: StoreModel, ids: Seq<u64>) -> Seq<(u64, TableModel)> {
    Seq::new(ids.len(), |i: int| (ids[i], s.tables[i]))
}

/// Whether the numbers of some tables are in strictly descending order.
pub open spec fn descending(s: Seq<(u64, TableModel)>) -> bool {
    forall|i: int, j: int| 0 <= i < j < s.len() ==> (#[trigger] s[i]).0 > (#[trigger] s[j]).0
}

proof fn lemma_place_contains(s: Seq<(u64, TableModel)>, t: (u64, TableModel), x: (u64, TableModel))
    ensures
        place_table(s, t).contains(x) <==> s.contains(x) || x == t,
    decreases s.len(),
{
    let p = place_table(s, t);
    if s.len() == 0 {
        assert(p[0] == t);
    } else if s.last().0 >= t.0 {
        assert(p =~= s.push(t));
        if s.contains(x) {
            let i = choose|i: int| 0 <= i < s.len() && s[i] == x;
            assert(p[i] == x);
        }
        assert(p[s.len() as int] == t);
    } else {
        let before = s.drop_last();
        lemma_place_contains(before, t, x);
        let q = place_table(before, t);
        assert(p =~= q.push(s.last()));
        if q.contains(x) {
            let i = choose|i: int| 0 <= i < q.len() && q[i] == x;
            assert(p[i] == x);
        }
        assert(p[q.len() as int] == s.last());
        if p.contains(x) {
            let i = choose|i: int| 0 <= i < p.len() && p[i] == x;
            if i < q.len() {
                assert(q[i] == x);
            }
        }
        if before.contains(x) {
            let i = choose|i: int| 0 <= i < before.len() && before[i] == x;
            assert(s[i] == x);
        }
        if s.contains(x) {
            let i = choose|i: int| 0 <= i < s.len() && s[i] == x;
            if i < before.len() {
                assert(before[i] == x);
            }
        }
        assert(s[s.len() - 1] == s.last());
    }
}

proof fn lemma_place_descending(s: Seq<(u64, TableModel)>, t: (u64, TableModel))
    requires
        descending(s),
        forall|i: int| 0 <= i < s.len() ==> (#[trigger] s[i]).0 != t.0,
    ensures
        descending(place_table(s, t)),
    decreases s.len(),
{
    let p = place_table(s, t);
    if s.len() > 0 {
        let n = s.len() - 1;
        assert(s[n].0 != t.0);
        if s.last().0 >= t.0 {
            assert forall|i: int, j: int| 0 <= i < j < p.len() implies (#[trigger] p[i]).0 > (
            #[trigger] p[j]).0 by {
                if j == s.len() && i < n {
                    assert(s[i].0 > s[n].0);
                }
            }
        } else {
            let before = s.drop_last();
            assert forall|i: int| 0 <= i < before.len() implies (#[trigger] before[i]).0
                != t.0 by {
                assert(s[i].0 != t.0);
            }
            lemma_place_descending(before, t);
            let q = place_table(before, t);
            assert forall|i: int, j: int| 0 <= i < j < p.len() implies (#[trigger] p[i]).0 > (
            #[trigger] p[j]).0 by {
                if j == q.len() {
                    lemma_place_contains(before, t, q[i]);
                    assert(q.contains(q[i]));
                    if q[i] != t {
                        let k = choose|k: int| 0 <= k < before.len() && before[k] == q[i];
                        assert(s[k].0 > s[n].0);
                    }
                }
            }
        }
    }
}

proof fn lemma_newest_first(found: Seq<(u64, TableModel)>, x: (u64, TableModel))
    requires
        forall|i: int, j: int|
            0 <= i < j < found.len() ==> (#[trigger] found[i]).0 != (#[trigger] found[j]).0,
    ensures
        descending(newest_first(found)),
        newest_first(found).contains(x) <==> found.contains(x),
    decreases found.len(),
{
    if found.len() > 0 {
        let before = found.drop_last();
        let t = found.last();
        let n = newest_first(before);
        lemma_newest_first(before, x);
        assert forall|i: int| 0 <= i < n.len() implies (#[trigger] n[i]).0 != t.0 by {
            lemma_newest_first(before, n[i]);
            assert(n.contains(n[i]));
            let k = choose|k: int| 0 <= k < before.len() && before[k] == n[i];
            assert(found[k].0 != found[found.len() - 1].0);
        }
        lemma_place_descending(n, t);
        lemma_place_contains(n, t, x);
        if before.contains(x) {
            let i = choose|i: int| 0 <= i < before.len() && before[i] == x;
            assert(found[i] == x);
        }
        if found.contains(x) {
            let i = choose|i: int| 0 <= i < found.len() && found[i] == x;
            if i < before.len() {
                assert(before[i] == x);
            }
        }
        assert(found[found.len() - 1] == t);
    }
}

proof fn lemma_descending_unique(a: Seq<(u64, TableModel)>, b: Seq<(u64, TableModel)>)
    requires
        descending(a),
        descending(b),
        forall|x: (u64, TableModel)| #[trigger] a.contains(x) <==> b.contains(x),
    ensures
        a == b,
    decreases a.len(),
{
    if a.len() == 0 {
        if b.len() > 0 {
            assert(b.contains(b[0]));
            assert(a.contains(b[0]));
        }
        assert(a =~= b);
    } else {
        let n = a.len() - 1;
        assert(a.contains(a[n]));
        let i = choose|i: int| 0 <= i < b.len() && b[i] == a[n];
        let m = b.len() - 1;
        assert(b.contains(b[m]));
        assert(a.contains(b[m]));
        let j = choose|j: int| 0 <= j < a.len() && a[j] == b[m];
        if i < m {
            assert(b[i].0 > b[m].0);
        }
        if j < n {
            assert(a[j].0 > a[n].0);
        }
        assert(a[n] == b[m]);
        let x = a.drop_last();
        let y = b.drop_last();
        assert forall|t: (u64, TableModel)| #[trigger] x.contains(t) <==> y.contains(t) by {
            if x.contains(t) {
                let k = choose|k: int| 0 <= k < x.len() && x[k] == t;
                assert(a[k] == t);
                assert(a.contains(t));
                let l = choose|l: int| 0 <= l < b.len() && b[l] == t;
                assert(a[k].0 > a[n].0);
                assert(l < m);
                assert(y[l] == t);
            }
            if y.contains(t) {
                let k = choose|k: int| 0 <= k < y.len() && y[k] == t;
                assert(b[k] == t);
                assert(b.contains(t));
                assert(a.contains(t));
                let l = choose|l: int| 0 <= l < a.len() && a[l] == t;
                assert(b[k].0 > b[m].0);
                assert(l < n);
                assert(x[l] == t);
            }
        }
        lemma_descending_unique(x, y);
        assert(a =~= x.push(a[n]));
        assert(b =~= y.push(b[m]));
    }
}

proof fn lemma_next_number(found: Seq<(u64, TableModel)>, limit: u64)
    requires
        limit >= 1,
        forall|i: int| 0 <= i < found.len() ==> (#[trigger] found[i]).0 < limit,
    ensures
        1 <= next_number(found) <= limit,
        forall|i: int| 0 <= i < found.len() ==> (#[trigger] found[i]).0 < next_number(found),
    decreases found.len(),
{
    if found.len() > 0 {
        let before = found.drop_last();
        assert forall|i: int| 0 <= i < before.len() implies (#[trigger] before[i]).0 < limit by {
            assert(found[i].0 < limit);
        }
        lemma_next_number(before, limit);
        assert(found[found.len() - 1].0 < limit);
        assert forall|i: int| 0 <= i < found.len() implies (#[trigger] found[i]).0 < next_number(
            found,
        ) by {
            if i < before.len() {
                assert(before[i].0 < next_number(before));
            }
        }
    }
}

/// Reopening gives a store back. Whatever order its files are found in, the tables come back in
/// their order and with a next number above all of them, and replaying what recovery keeps of the
/// log gives the memtable back.
pub proof fn law_reopening_gives_the_store_back(
    log: Seq<u8>,
    s: StoreModel,
    ids: Seq<u64>,
    found: Seq<(u64, TableModel)>,
)
    requires
        log_holds(log, s.memtable, s.sequence),
        numbered(s, ids),
        s.next_id >= 1,
        forall|i: int, j: int|
            0 <= i < j < found.len() ==> (#[trigger] found[i]).0 != (#[trigger] found[j]).0,
        forall|x: (u64, TableModel)|
            #[trigger] found.contains(x) <==> numbered_tables(s, ids).contains(x),
    ensures
        tables_of(newest_first(found)) == s.tables,
        1 <= next_number(found) <= s.next_id,
        forall|i: int| 0 <= i < ids.len() ==> #[trigger] ids[i] < next_number(found),
        committed_len(log) == log.len(),
        replay(blank_replay(), committed(log_entries(log))) matches Ok(r) && r.memtable
            == s.memtable && r.sequence <= s.sequence,
{
    let ours = numbered_tables(s, ids);
    assert(descending(ours));
    assert forall|x: (u64, TableModel)| #[trigger] newest_first(found).contains(x)
        <==> ours.contains(x) by {
        lemma_newest_first(found, x);
        assert(found.contains(x) <==> ours.contains(x));
    }
    lemma_newest_first(found, (0, s.tables[0]));
    lemma_descending_unique(newest_first(found), ours);
    assert(tables_of(ours) =~= s.tables);
    assert forall|i: int| 0 <= i < found.len() implies (#[trigger] found[i]).0 < s.next_id by {
        assert(found.contains(found[i]));
        let k = choose|k: int| 0 <= k < ours.len() && ours[k] == found[i];
        assert(ids[k] < s.next_id);
    }
    lemma_next_number(found, s.next_id);
    assert forall|i: int| 0 <= i < ids.len() implies #[trigger] ids[i] < next_number(found) by {
        assert(ours[i] == (ids[i], s.tables[i]));
        assert(ours.contains(ours[i]));
        assert(found.contains(ours[i]));
        let k = choose|k: int| 0 <= k < found.len() && found[k] == ours[i];
        assert(found[k].0 < next_number(found));
    }
    law_recovery_keeps_the_committed(log);
    assert(log.take(log.len() as int) =~= log);
}

/// The memtable is over its budget exactly if the bytes of its entries reach it; they are counted
/// one by one.
pub proof fn law_budget_is_counted_in_bytes(s: StoreModel, pairs: Seq<Pair>, p: Pair)
    ensures
        total_footprint(s.memtable) <= usize::MAX ==> (over_budget(s) <==> total_footprint(
            s.memtable,
        ) >= s.budget),
        total_footprint(Seq::empty()) == 0,
        total_footprint(pairs.push(p)) == total_footprint(pairs) + footprint(p.0, p.1),
{
    if total_footprint(s.memtable) <= usize::MAX {
        lemma_wrapped_near(total_footprint(s.memtable) as int);
    }
    assert(pairs.push(p).drop_last() =~= pairs);
}

/// The next table file has the number after the highest that was found, and the first one has
/// number one.
pub proof fn law_next_number_follows_the_highest(found: Seq<(u64, TableModel)>)
    ensures
        found.len() == 0 ==> next_number(found) == 1,
        forall|i: int| 0 <= i < found.len() ==> (#[trigger] found[i]).0 < next_number(found),
        found.len() > 0 ==> exists|i: int|
            0 <= i < found.len() && (#[trigger] found[i]).0 + 1 == next_number(found),
    decreases found.len(),
{
    if found.len() > 0 {
        let before = found.drop_last();
        law_next_number_follows_the_highest(before);
        assert forall|i: int| 0 <= i < found.len() implies (#[trigger] found[i]).0 < next_number(
            found,
        ) by {
            if i < before.len() {
                assert(before[i].0 < next_number(before));
            }
        }
        let n = found.len() - 1;
        if found[n].0 + 1 >= next_number(found) {
            assert(found[n].0 + 1 == next_number(found));
        } else {
            let i = choose|i: int|
                0 <= i < before.len() && (#[trigger] before[i]).0 + 1 == next_number(before);
            assert(found[i].0 + 1 == next_number(found));
        }
    }
}

/// A commit leads to a flush exactly if the bytes of the memtable with its writes reach the budget,
/// and there is something to flush; else it is done.
pub proof fn law_commit_flushes_at_the_budget(s: StoreModel, c: CommitModel)
    requires
        total_footprint(put_all(s.memtable, c.writes)) <= usize::MAX,
    ensures
        ({
            let (next, step) = committed_step(s, c);
            let full = total_footprint(put_all(s.memtable, c.writes)) >= s.budget && put_all(
                s.memtable,
                c.writes,
            ).len() > 0;
            &&& next.memtable == put_all(s.memtable, c.writes)
            &&& next.tables == s.tables
            &&& full ==> step is WriteTable
            &&& !full ==> step is Done
        }),
{
    lemma_wrapped_near(total_footprint(put_all(s.memtable, c.writes)) as int);
}

/// Each write is logged under the next number, and the commit under the last of them.
pub proof fn law_commit_is_logged_under_the_last_number(s: StoreModel, c: CommitModel)
    requires
        c.logged >= c.writes.len(),
    ensures
        log_step(s, c).0 == s,
        log_step(s, c).1 is Commit,
        log_step(s, c).1->Commit_bytes == frame_bytes(commit_entry(s.sequence)),
{
}

/// The limits: a memtable of one mebibyte unless it is set otherwise, and eight tables before they
/// are compacted; two are needed for that.
pub proof fn law_limits(s: StoreModel)
    ensures
        DEFAULT_MEMTABLE_MAX_BYTES == 1048576,
        MAX_SSTABLES == 8,
        s.tables.len() <= 8 ==> log_cleared_step(s).1 is Done,
        s.tables.len() > 8 ==> log_cleared_step(s) == compact_step(
            StoreModel { log_len: 0, ..s },
        ),
        s.tables.len() < 2 ==> compact_step(s) == (s, StepModel::Done),
        s.memtable.len() == 0 ==> flush_step(s) == (s, StepModel::Done),
        s.memtable.len() > 0 ==> flush_step(s).1 is WriteTable && flush_step(s).0 == s,
{
}

} // verus!
