//! Laws of whole histories: what holds after any number of operations on a table and its files.

use vstd::prelude::*;
use crate::bounds::{within, BoundModel};
use crate::entry_map::{as_map, sorted};
use crate::format::{file_bytes, pairs_in_block, table_of, Pair, TableModel};
use crate::log_laws::{framable, law_recovery_keeps_the_committed};
use crate::model::{
    commit_failed_step, committed_step, compact_step, entry_value, flush_step, log_cleared_step,
    log_step, lookup_start, merge_after, merge_start, merge_step, merged_written_step, newest_first,
    next_number, over_budget, put_all, removal_order, removed_step, replaced, replay, scan_step,
    table_written_step, tables_of, CommitModel, MergeModel, StepModel, StoreModel,
    DEFAULT_MEMTABLE_MAX_BYTES, MAX_SSTABLES,
};
use crate::names::table_path;
use crate::read_laws::{
    all_hold, blocks_left, holds, law_lookup_finds_the_newest, law_scan_gives_every_value_in_order,
    lemma_ascending_unique, lemma_next_read, lemma_put_all, read_block, run_lookup, run_scan,
    value_of,
};
use crate::table_laws::{fits, law_opening_a_file_gives_back_its_table, opened};
use crate::value::{EntryModel, ValueModel};
use crate::value_laws::law_commit_changes_exactly_its_keys;
use crate::wal::{committed, committed_len, log_entries};
use crate::write_laws::{
    after_appends, batch, blank_replay, compacted, law_cleared_log_holds_nothing,
    law_commit_is_durable_and_atomic, law_compaction_changes_no_value,
    law_failed_commit_leaves_nothing, law_logging_only_takes_numbers, law_removal_changes_no_value,
    law_removal_leaves_the_newer_tables, law_reopening_gives_the_store_back, law_shadows_stay,
    law_stale_files_change_no_value, lemma_add_table, lemma_compacted, lemma_layered_take,
    lemma_run_commit, lemma_table_path_injective, log_holds, numbered, numbered_tables, run_commit,
    run_reads, shadowed,
};

verus! {

/// A table and its files, with a record of what each table file was written with and of its number:
/// of the tables, and of the files that are left of compacted tables.
pub struct World {
    pub log: Seq<u8>,
    pub files: Map<Seq<char>, Seq<u8>>,
    pub store: StoreModel,
    pub contents: Seq<Seq<Pair>>,
    pub ids: Seq<u64>,
    pub old_contents: Seq<Seq<Pair>>,
    pub old_ids: Seq<u64>,
}

/// The tables that the files left of compacted tables are those of, the newest first.
pub open spec fn old_tables(w: World) -> Seq<TableModel> {
    Seq::new(
        w.old_ids.len(),
        |i: int| table_of(table_path(w.store.dir, w.old_ids[i]), w.old_contents[i]),
    )
}

/// The store with the tables of all its files.
pub open spec fn with_old_tables(w: World) -> StoreModel {
    StoreModel { tables: w.store.tables + old_tables(w), ..w.store }
}

/// Whether the files stand for the store: the log for the memtable, and the table files for the
/// tables.
pub open spec fn sound(w: World) -> bool {
    &&& sorted(w.store.memtable)
    &&& log_holds(w.log, w.store.memtable, w.store.sequence)
    &&& w.store.log_len == w.log.len()
    &&& tables_sound(w)
}

/// Whether the table files stand for the tables. Besides them there are only the files that are
/// still to be removed, and those give no key a value of their own.
pub open spec fn tables_sound(w: World) -> bool {
    &&& w.ids.len() == w.store.tables.len()
    &&& w.contents.len() == w.store.tables.len()
    &&& w.old_ids.len() == w.old_contents.len()
    &&& all_hold(w.files, with_old_tables(w).tables, w.contents + w.old_contents)
    &&& numbered(with_old_tables(w), w.ids + w.old_ids)
    &&& w.store.next_id >= 1
    &&& w.store.stale == removal_order(old_tables(w))
    &&& no_strays(w)
    &&& forall|key: Seq<u8>| #[trigger] shadowed(w.contents, w.old_contents, key)
}

/// Whether every table file in the directory is that of a table of the store, or still to be
/// removed.
pub open spec fn no_strays(w: World) -> bool {
    forall|id: u64|
        w.files.contains_key(#[trigger] table_path(w.store.dir, id)) ==> (w.ids
            + w.old_ids).contains(id)
}

/// The tables of a store hold their contents.
pub proof fn lemma_tables_hold(w: World)
    requires
        tables_sound(w),
    ensures
        all_hold(w.files, w.store.tables, w.contents),
{
    let all = with_old_tables(w);
    assert forall|i: int| 0 <= i < w.store.tables.len() implies holds(
        w.files,
        #[trigger] w.store.tables[i],
        w.contents[i],
    ) by {
        assert(all.tables[i] == w.store.tables[i]);
        assert((w.contents + w.old_contents)[i] == w.contents[i]);
    }
}

/// The world when its store has moved on to a new state and a new step. A compaction that keeps
/// nothing leaves files only.
pub open spec fn moved_on(w: World, next: (StoreModel, StepModel)) -> World {
    if next.1 is Remove {
        World {
            store: next.0,
            contents: Seq::empty(),
            ids: Seq::empty(),
            old_contents: w.contents + w.old_contents,
            old_ids: w.ids + w.old_ids,
            ..w
        }
    } else {
        World { store: next.0, ..w }
    }
}

// ---- performing steps ----

/// What stage of an operation a step belongs to.
pub open spec fn stage(step: StepModel) -> int {
    match step {
        StepModel::Append { .. } => 7,
        StepModel::Commit { .. } => 6,
        StepModel::WriteTable { .. } => 5,
        StepModel::ClearLog => 4,
        StepModel::ReadBlock { .. } => 3,
        StepModel::WriteMerged { .. } => 2,
        StepModel::Remove { .. } => 1,
        StepModel::CutLog { .. } => 1,
        StepModel::Done => 0,
    }
}

/// How far a step is from the end of its stage.
pub open spec fn to_go(step: StepModel) -> int {
    match step {
        StepModel::Append { bytes, commit } => commit.writes.len() - commit.logged,
        StepModel::ReadBlock { path, block, merge } => merge.table + 2,
        _ => 0,
    }
}

/// How many blocks of its present table a step may still read.
pub open spec fn blocks_to_go(w: World, step: StepModel) -> int {
    match step {
        StepModel::ReadBlock { path, block, merge } => blocks_left(w.store.tables, merge),
        _ => 0,
    }
}

/// The smaller of two numbers.
pub open spec fn at_most(n: nat, limit: nat) -> nat {
    if n <= limit {
        n
    } else {
        limit
    }
}

/// Whether the block that a step asks for is one of a table of the store.
pub open spec fn asks_well(w: World, merge: MergeModel) -> bool {
    &&& 0 <= merge.table < w.store.tables.len()
    &&& 0 <= merge.block < w.store.tables[merge.table].index.len()
}

/// One step performed on the files and reported to the store, and the step that comes next; `None`
/// if a block cannot be read. Of the files to remove, only the first `removable` can be.
pub open spec fn perform(w: World, step: StepModel, removable: nat) -> Option<(World, StepModel)> {
    match step {
        StepModel::Append { bytes, commit } => {
            let (store, next) = log_step(w.store, commit);
            Some((World { log: w.log + bytes, store, ..w }, next))
        },
        StepModel::Commit { bytes, commit } => {
            let (store, next) = committed_step(w.store, commit);
            Some((World { log: w.log + bytes, store, ..w }, next))
        },
        StepModel::CutLog { len } => Some(
            (World { log: w.log.take(len as int), ..w }, StepModel::Done),
        ),
        StepModel::WriteTable { path, bytes, table } => {
            let (store, next) = table_written_step(w.store, table);
            Some(
                (
                    World {
                        files: w.files.insert(path, bytes),
                        store,
                        contents: seq![w.store.memtable] + w.contents,
                        ids: seq![w.store.next_id] + w.ids,
                        ..w
                    },
                    next,
                ),
            )
        },
        StepModel::ClearLog => {
            let next = log_cleared_step(w.store);
            Some((moved_on(World { log: Seq::empty(), ..w }, next), next.1))
        },
        StepModel::ReadBlock { path, block, merge } => if !asks_well(w, merge) {
            None
        } else {
            match pairs_in_block(block.offset, read_block(w.files[path], block)) {
                Err(text) => None,
                Ok(pairs) => {
                    let next = merge_step(w.store, merge_after(merge, pairs));
                    Some((moved_on(w, next), next.1))
                },
            }
        },
        StepModel::WriteMerged { path, bytes, table } => {
            let (store, next) = merged_written_step(w.store, table);
            Some(
                (
                    World {
                        files: w.files.insert(path, bytes),
                        store,
                        contents: seq![compacted(w.contents)],
                        ids: seq![w.store.next_id],
                        old_contents: w.contents + w.old_contents,
                        old_ids: w.ids + w.old_ids,
                        ..w
                    },
                    next,
                ),
            )
        },
        StepModel::Remove { paths } => {
            let n = at_most(paths.len(), removable);
            let (store, next) = removed_step(w.store, n);
            Some(
                (
                    World {
                        files: w.files.remove_keys(paths.take(n as int).to_set()),
                        store,
                        old_contents: w.old_contents.take(w.old_contents.len() - n),
                        old_ids: w.old_ids.take(w.old_ids.len() - n),
                        ..w
                    },
                    next,
                ),
            )
        },
        StepModel::Done => Some((w, StepModel::Done)),
    }
}

/// Every step but the last is followed by one that is nearer to the end.
pub proof fn lemma_perform_advances(w: World, step: StepModel, removable: nat)
    ensures
        perform(w, step, removable) matches Some((after, next)) ==> {
            ||| step is Done
            ||| stage(next) < stage(step)
            ||| stage(next) == stage(step) && 0 <= to_go(next) < to_go(step)
            ||| stage(next) == stage(step) && to_go(next) == to_go(step) && 0 <= blocks_to_go(
                after,
                next,
            ) < blocks_to_go(w, step)
        },
{
    match step {
        StepModel::ReadBlock { path, block, merge } => {
            if asks_well(w, merge) {
                if let Ok(pairs) = pairs_in_block(block.offset, read_block(w.files[path], block)) {
                    let m = merge_after(merge, pairs);
                    lemma_next_read(w.store.tables, m.table, m.block, m.lo, m.hi);
                }
            }
        },
        StepModel::ClearLog => {
            let s = w.store;
            let m = merge_start(s.tables, BoundModel::Unbounded, BoundModel::Unbounded);
            if s.tables.len() > 0 {
                lemma_next_read(s.tables, m.table, m.block, m.lo, m.hi);
            }
        },
        _ => {},
    }
}

/// What an operation comes to when every step is performed; `None` if a block cannot be read.
pub open spec fn run(w: World, step: StepModel, removable: nat) -> Option<World>
    decreases stage(step), to_go(step), blocks_to_go(w, step),
{
    if step is Done {
        Some(w)
    } else {
        match perform(w, step, removable) {
            None => None,
            Some((after, next)) => {
                proof {
                    lemma_perform_advances(w, step, removable);
                }
                run(after, next, removable)
            },
        }
    }
}

// ---- whole operations ----

proof fn lemma_run_commit_steps(w: World, c: CommitModel, removable: nat)
    requires
        c.logged <= c.writes.len(),
    ensures
        ({
            let (store, step) = log_step(w.store, c);
            let (last, done, bytes) = run_commit(w.store, c);
            let (after, next) = committed_step(last, done);
            run(World { store, ..w }, step, removable) == run(
                World { log: w.log + bytes, store: after, ..w },
                next,
                removable,
            )
        }),
    decreases c.writes.len() - c.logged,
{
    let (store, step) = log_step(w.store, c);
    let here = World { store, ..w };
    lemma_perform_advances(here, step, removable);
    match step {
        StepModel::Append { bytes, commit } => {
            let after = World { log: w.log + bytes, ..here };
            lemma_run_commit_steps(after, commit, removable);
            let (last, done, rest) = run_commit(store, commit);
            assert((w.log + bytes) + rest =~= w.log + (bytes + rest));
        },
        _ => {},
    }
}

proof fn lemma_run_merge_steps(w: World, m: MergeModel, removable: nat)
    requires
        m.table < w.store.tables.len(),
        0 <= m.block,
    ensures
        ({
            let next = merge_step(w.store, m);
            run(moved_on(w, next), next.1, removable) == (match run_reads(w.files, w.store, next) {
                Ok(end) => run(moved_on(w, end), end.1, removable),
                Err(text) => None,
            })
        }),
    decreases m.table + 1, blocks_left(w.store.tables, m),
{
    let s = w.store;
    let next = merge_step(s, m);
    let here = moved_on(w, next);
    lemma_next_read(s.tables, m.table, m.block, m.lo, m.hi);
    lemma_perform_advances(here, next.1, removable);
    match next.1 {
        StepModel::ReadBlock { path, block, merge } => {
            assert(asks_well(here, merge));
            if let Ok(pairs) = pairs_in_block(block.offset, read_block(w.files[path], block)) {
                lemma_run_merge_steps(w, merge_after(merge, pairs), removable);
            }
        },
        _ => {},
    }
}

/// Whether two worlds differ in nothing but their table files, and every key has the same value.
pub open spec fn same_values(w: World, after: World) -> bool {
    &&& after.log == w.log
    &&& after.store == (StoreModel {
        tables: after.store.tables,
        next_id: after.store.next_id,
        stale: after.store.stale,
        ..w.store
    })
    &&& forall|key: Seq<u8>| #[trigger]
        value_of(w.store.memtable, after.contents, key) == value_of(
            w.store.memtable,
            w.contents,
            key,
        )
}

/// The world with the first `n` files to be removed gone.
pub open spec fn with_removed(w: World, n: nat) -> World {
    World {
        files: w.files.remove_keys(w.store.stale.take(n as int).to_set()),
        store: removed_step(w.store, n).0,
        old_contents: w.old_contents.take(w.old_contents.len() - n),
        old_ids: w.old_ids.take(w.old_ids.len() - n),
        ..w
    }
}

/// Removing files that are still to be removed, in their order, leaves the others sound.
proof fn lemma_removal(w: World, n: nat)
    requires
        tables_sound(w),
        n <= w.store.stale.len(),
    ensures
        tables_sound(with_removed(w, n)),
{
    let s = w.store;
    let all = with_old_tables(w);
    let ids = w.ids + w.old_ids;
    let order = removal_order(all.tables);
    let gone = w.store.stale.take(n as int);
    let after = with_removed(w, n);
    let left = w.old_ids.len() - n;
    let count = all.tables.len() - n;
    assert(order.take(n as int) =~= gone) by {
        assert forall|i: int| 0 <= i < n implies #[trigger] order[i] == w.store.stale[i] by {
            assert(all.tables[all.tables.len() - 1 - i] == old_tables(w)[w.old_ids.len() - 1 - i]);
        }
    }
    law_removal_leaves_the_newer_tables(w.files, all, w.contents + w.old_contents, ids, n as int);
    assert(old_tables(after) =~= old_tables(w).take(left));
    assert(with_old_tables(after).tables =~= all.tables.take(count));
    assert(after.contents + after.old_contents =~= (w.contents + w.old_contents).take(count));
    assert(after.ids + after.old_ids =~= ids.take(count));
    assert(with_old_tables(after) == (StoreModel {
        tables: all.tables.take(count),
        stale: after.store.stale,
        ..all
    }));
    assert(after.store.stale =~= removal_order(old_tables(after))) by {
        assert forall|i: int| 0 <= i < left implies #[trigger] after.store.stale[i]
            == removal_order(old_tables(after))[i] by {
            assert(after.store.stale[i] == s.stale[i + n]);
        }
    }
    assert forall|id: u64|
        after.files.contains_key(#[trigger] table_path(after.store.dir, id)) implies (after.ids
        + after.old_ids).contains(id) by {
        let path = table_path(s.dir, id);
        assert(w.files.contains_key(path));
        let j = choose|j: int| 0 <= j < ids.len() && ids[j] == id;
        if j >= count {
            let k = all.tables.len() - 1 - j;
            assert(all.tables[j].path == path);
            assert(order.take(n as int)[k] == path);
            assert(gone.to_set().contains(path));
        }
        assert((after.ids + after.old_ids)[j] == id);
    }
    assert forall|key: Seq<u8>| #[trigger] shadowed(after.contents, after.old_contents, key) by {
        assert(shadowed(w.contents, w.old_contents, key));
        lemma_layered_take(w.old_contents, left, key);
    }
}

/// What a removal comes to.
proof fn lemma_run_removal(w: World, removable: nat)
    ensures
        run(w, StepModel::Remove { paths: w.store.stale }, removable) == Some(
            with_removed(w, at_most(w.store.stale.len(), removable)),
        ),
{
    let step = StepModel::Remove { paths: w.store.stale };
    lemma_perform_advances(w, step, removable);
    let (last, next) = perform(w, step, removable)->Some_0;
    assert(run(last, next, removable) == Some(last));
}

/// A table that is written under the next number takes its place before all files.
proof fn lemma_written_table(w: World, pairs: Seq<Pair>)
    requires
        tables_sound(w),
        sorted(pairs),
        fits(pairs),
        w.store.next_id < u64::MAX,
    ensures
        ({
            let path = table_path(w.store.dir, w.store.next_id);
            let files = w.files.insert(path, file_bytes(pairs));
            let tables = seq![table_of(path, pairs)] + with_old_tables(w).tables;
            let ids = seq![w.store.next_id] + (w.ids + w.old_ids);
            let next = StoreModel {
                tables,
                next_id: (w.store.next_id + 1) as u64,
                ..w.store
            };
            &&& all_hold(files, tables, seq![pairs] + (w.contents + w.old_contents))
            &&& numbered(next, ids)
            &&& forall|id: u64|
                files.contains_key(#[trigger] table_path(w.store.dir, id)) ==> ids.contains(id)
        }),
{
    let all = with_old_tables(w);
    let path = table_path(w.store.dir, w.store.next_id);
    let files = w.files.insert(path, file_bytes(pairs));
    let before = w.ids + w.old_ids;
    let ids = seq![w.store.next_id] + before;
    lemma_add_table(w.files, all, w.contents + w.old_contents, before, pairs);
    assert forall|id: u64|
        files.contains_key(#[trigger] table_path(w.store.dir, id)) implies ids.contains(id) by {
        if table_path(w.store.dir, id) == path {
            lemma_table_path_injective(w.store.dir, id, w.store.next_id);
            assert(ids[0] == id);
        } else {
            assert(w.files.contains_key(table_path(w.store.dir, id)));
            let j = choose|j: int| 0 <= j < before.len() && before[j] == id;
            assert(ids[j + 1] == id);
        }
    }
}

/// The tables of a world whose tables have all become files to be removed are those of before.
proof fn lemma_replaced(w: World, after: World)
    requires
        tables_sound(w),
        after.store.dir == w.store.dir,
        after.old_contents == w.contents + w.old_contents,
        after.old_ids == w.ids + w.old_ids,
        after.store.stale == w.store.stale + removal_order(w.store.tables),
    ensures
        old_tables(after) == with_old_tables(w).tables,
        after.store.stale == removal_order(old_tables(after)),
{
    let all = with_old_tables(w).tables;
    lemma_tables_hold(w);
    assert forall|i: int| 0 <= i < all.len() implies #[trigger] old_tables(after)[i] == all[i] by {
        if i < w.store.tables.len() {
            assert(holds(w.files, w.store.tables[i], w.contents[i]));
            assert(with_old_tables(w).tables[i].path == table_path(
                w.store.dir,
                (w.ids + w.old_ids)[i],
            ));
            assert(all[i] == w.store.tables[i]);
        }
    }
    assert(old_tables(after) =~= all);
    assert(after.store.stale =~= removal_order(all)) by {
        let order = removal_order(all);
        assert forall|i: int| 0 <= i < order.len() implies #[trigger] after.store.stale[i]
            == order[i] by {
            let j = all.len() - 1 - i;
            if i < w.store.stale.len() {
                assert(all[j] == old_tables(w)[j - w.store.tables.len()]);
            } else {
                assert(all[j] == w.store.tables[j]);
            }
        }
    }
}

/// The end of a compaction that keeps nothing.
proof fn lemma_nothing_kept(w: World, removable: nat)
    requires
        tables_sound(w),
        compacted(w.contents).len() == 0,
    ensures
        ({
            let store = replaced(w.store, Seq::empty());
            let next = (store, StepModel::Remove { paths: store.stale });
            run(moved_on(w, next), next.1, removable) matches Some(after) && tables_sound(after)
                && same_values(w, after) && compacted_to(w, after, removable)
        }),
{
    let s = w.store;
    let store = replaced(s, Seq::empty());
    let next = (store, StepModel::Remove { paths: store.stale });
    let mid = moved_on(w, next);
    let none = Seq::<Seq<Pair>>::empty();
    lemma_tables_hold(w);
    lemma_replaced(w, mid);
    assert(with_old_tables(mid).tables =~= with_old_tables(w).tables);
    assert(mid.contents + mid.old_contents =~= w.contents + w.old_contents);
    assert(mid.ids + mid.old_ids =~= w.ids + w.old_ids);
    assert forall|key: Seq<u8>| #[trigger] shadowed(mid.contents, mid.old_contents, key) by {
        assert(shadowed(w.contents, w.old_contents, key));
        law_removal_changes_no_value(w.files, s, w.contents, w.old_contents, 0, key);
        assert(mid.old_contents.take(mid.old_contents.len() as int) =~= mid.old_contents);
    }
    assert forall|id: u64|
        mid.files.contains_key(#[trigger] table_path(mid.store.dir, id)) implies (mid.ids
        + mid.old_ids).contains(id) by {
        assert(w.files.contains_key(table_path(w.store.dir, id)));
    }
    assert(tables_sound(mid));
    let n = at_most(store.stale.len(), removable);
    lemma_run_removal(mid, removable);
    lemma_removal(mid, n);
    assert forall|key: Seq<u8>| #[trigger] value_of(s.memtable, none, key) == value_of(
        s.memtable,
        w.contents,
        key,
    ) by {
        lemma_compacted(w.files, s.tables, w.contents, key);
        assert(as_map(compacted(w.contents)) == Map::<Seq<u8>, EntryModel>::empty());
    }
    if removable >= store.stale.len() {
        lemma_all_removed(mid, removable);
    }
}

/// Where all files to be removed can be removed, none is left.
proof fn lemma_all_removed(w: World, removable: nat)
    requires
        tables_sound(w),
        removable >= w.store.stale.len(),
    ensures
        with_removed(w, at_most(w.store.stale.len(), removable)).store.stale.len() == 0,
        with_removed(w, at_most(w.store.stale.len(), removable)).old_ids.len() == 0,
{
}

/// Whether a compaction has left one table, or none, and, where all files could be removed, no file
/// of another.
pub open spec fn compacted_to(w: World, after: World, removable: nat) -> bool {
    &&& after.store.tables.len() <= 1
    &&& removable >= w.store.stale.len() + w.store.tables.len() ==> after.store.stale.len() == 0
        && after.old_ids.len() == 0
}

/// The end of a compaction that writes a merged table.
proof fn lemma_merged(w: World, table: TableModel, removable: nat)
    requires
        tables_sound(w),
        fits(compacted(w.contents)),
        w.store.next_id < u64::MAX,
        table == table_of(
            table_path(w.store.dir, w.store.next_id),
            compacted(w.contents),
        ),
    ensures
        run(
            w,
            StepModel::WriteMerged {
                path: table_path(w.store.dir, w.store.next_id),
                bytes: file_bytes(compacted(w.contents)),
                table,
            },
            removable,
        ) matches Some(after) && tables_sound(after) && same_values(w, after) && compacted_to(
            w,
            after,
            removable,
        ),
{
    let s = w.store;
    let kept = compacted(w.contents);
    let path = table_path(s.dir, s.next_id);
    let step = StepModel::WriteMerged { path, bytes: file_bytes(kept), table };
    let (mid, remove) = perform(w, step, removable)->Some_0;
    lemma_perform_advances(w, step, removable);
    lemma_tables_hold(w);
    lemma_compacted(w.files, s.tables, w.contents, Seq::empty());
    lemma_written_table(w, kept);
    lemma_replaced(w, mid);
    assert(with_old_tables(mid).tables =~= seq![table] + with_old_tables(w).tables);
    assert(mid.contents + mid.old_contents =~= seq![kept] + (w.contents + w.old_contents));
    assert(mid.ids + mid.old_ids =~= seq![s.next_id] + (w.ids + w.old_ids));
    assert(numbered(with_old_tables(mid), mid.ids + mid.old_ids));
    assert forall|key: Seq<u8>| #[trigger] shadowed(mid.contents, mid.old_contents, key) by {
        assert(shadowed(w.contents, w.old_contents, key));
        law_removal_changes_no_value(w.files, s, w.contents, w.old_contents, 0, key);
        assert(mid.old_contents.take(mid.old_contents.len() as int) =~= mid.old_contents);
    }
    assert(tables_sound(mid));
    let n = at_most(mid.store.stale.len(), removable);
    lemma_run_removal(mid, removable);
    lemma_removal(mid, n);
    assert forall|key: Seq<u8>| #[trigger] value_of(s.memtable, seq![kept], key) == value_of(
        s.memtable,
        w.contents,
        key,
    ) by {
        assert(shadowed(w.contents, w.old_contents, key));
        law_removal_changes_no_value(w.files, s, w.contents, w.old_contents, 0, key);
        assert(shadowed(mid.contents, mid.old_contents, key));
        law_stale_files_change_no_value(s.memtable, mid.contents, mid.old_contents, key);
        assert(mid.old_contents.take(mid.old_contents.len() as int) =~= mid.old_contents);
    }
    if removable >= mid.store.stale.len() {
        lemma_all_removed(mid, removable);
    }
}

/// Whether what a compaction of tables with the given contents writes, if anything, fits in its
/// fields, and has a number.
pub open spec fn merge_fits(contents: Seq<Seq<Pair>>, next_id: u64) -> bool {
    compacted(contents).len() > 0 ==> fits(compacted(contents)) && next_id < u64::MAX
}

/// A compaction runs to its end, leaves the files sound, and changes no value, however many of the
/// old files can be removed.
proof fn lemma_compaction(w: World, removable: nat)
    requires
        tables_sound(w),
        w.store.tables.len() >= 2 ==> merge_fits(w.contents, w.store.next_id),
    ensures
        ({
            let next = compact_step(w.store);
            run(moved_on(w, next), next.1, removable) matches Some(after) && tables_sound(after)
                && same_values(w, after) && (w.store.tables.len() >= 2 ==> compacted_to(
                w,
                after,
                removable,
            )) && (w.store.tables.len() < 2 ==> after == w)
        }),
{
    let s = w.store;
    if s.tables.len() >= 2 {
        let m = merge_start(s.tables, BoundModel::Unbounded, BoundModel::Unbounded);
        lemma_run_merge_steps(w, m, removable);
        lemma_tables_hold(w);
        law_compaction_changes_no_value(w.files, s, w.contents, Seq::empty());
        if compacted(w.contents).len() == 0 {
            lemma_nothing_kept(w, removable);
        } else {
            let path = table_path(s.dir, s.next_id);
            lemma_merged(w, table_of(path, compacted(w.contents)), removable);
        }
    }
}

/// Whether what a flush of `memtable` writes, and a compaction that follows it, fits in its fields,
/// and has its numbers. A flush of nothing writes nothing.
pub open spec fn flush_fits(w: World, memtable: Seq<Pair>) -> bool {
    memtable.len() > 0 ==> {
        &&& fits(memtable)
        &&& w.store.next_id < u64::MAX
        &&& w.store.tables.len() + 1 > MAX_SSTABLES ==> merge_fits(
            seq![memtable] + w.contents,
            (w.store.next_id + 1) as u64,
        )
    }
}

/// The world after the file of a flushed memtable has been written, and before that is reported.
pub open spec fn table_on_disk(w: World) -> World {
    let path = table_path(w.store.dir, w.store.next_id);
    World {
        files: w.files.insert(path, file_bytes(w.store.memtable)),
        store: StoreModel {
            tables: seq![table_of(path, w.store.memtable)] + w.store.tables,
            next_id: (w.store.next_id + 1) as u64,
            ..w.store
        },
        contents: seq![w.store.memtable] + w.contents,
        ids: seq![w.store.next_id] + w.ids,
        ..w
    }
}

proof fn lemma_table_on_disk(w: World)
    requires
        sound(w),
        fits(w.store.memtable),
        w.store.next_id < u64::MAX,
    ensures
        sound(table_on_disk(w)),
        forall|key: Seq<u8>| #[trigger]
            value_of(w.store.memtable, table_on_disk(w).contents, key) == value_of(
                w.store.memtable,
                w.contents,
                key,
            ),
        forall|key: Seq<u8>| #[trigger]
            value_of(Seq::empty(), table_on_disk(w).contents, key) == value_of(
                w.store.memtable,
                w.contents,
                key,
            ),
{
    let s = w.store;
    let path = table_path(s.dir, s.next_id);
    let after = table_on_disk(w);
    lemma_written_table(w, s.memtable);
    assert(old_tables(after) =~= old_tables(w));
    assert(with_old_tables(after).tables =~= seq![table_of(path, s.memtable)] + with_old_tables(
        w,
    ).tables);
    assert(after.contents + after.old_contents =~= seq![s.memtable] + (w.contents
        + w.old_contents));
    assert(after.ids + after.old_ids =~= seq![s.next_id] + (w.ids + w.old_ids));
    assert(numbered(with_old_tables(after), after.ids + after.old_ids));
    assert forall|key: Seq<u8>| #[trigger] shadowed(after.contents, after.old_contents, key) by {
        assert(shadowed(w.contents, w.old_contents, key));
        law_shadows_stay(
            w.contents,
            w.old_contents,
            s.memtable,
            w.old_contents.len() as int,
            key,
        );
        assert(w.old_contents.take(w.old_contents.len() as int) =~= w.old_contents);
    }
    assert(after.contents.skip(1) =~= w.contents);
    assert(after.contents[0] == s.memtable);
    assert(as_map(Seq::<Pair>::empty()) == Map::<Seq<u8>, EntryModel>::empty());
}

/// Whether a flush has left what it should: nothing changed if the memtable was empty; else an
/// empty memtable, an empty log, and one table more, or, where that is too many, at most one, with
/// no file of another where all could be removed.
pub open spec fn flushed_to(w: World, after: World, removable: nat) -> bool {
    if w.store.memtable.len() == 0 {
        after == w
    } else {
        let n = w.store.tables.len();
        &&& after.store.memtable == Seq::<Pair>::empty()
        &&& after.log == Seq::<u8>::empty()
        &&& n + 1 <= MAX_SSTABLES ==> after.store.tables.len() == n + 1 && after.store.stale
            == w.store.stale
        &&& n + 1 > MAX_SSTABLES ==> after.store.tables.len() <= 1 && (removable
            >= w.store.stale.len() + n + 1 ==> after.store.stale.len() == 0)
    }
}

/// A flush runs to its end, leaves the files sound, and changes no value.
proof fn lemma_flush(w: World, removable: nat)
    requires
        sound(w),
        flush_fits(w, w.store.memtable),
    ensures
        ({
            let (store, step) = flush_step(w.store);
            run(World { store, ..w }, step, removable) matches Some(after) && sound(after)
                && after.store.dir == w.store.dir && flushed_to(w, after, removable) && forall|
                key: Seq<u8>,
            | #[trigger]
                value_of(after.store.memtable, after.contents, key) == value_of(
                    w.store.memtable,
                    w.contents,
                    key,
                )
        }),
{
    let s = w.store;
    let step = flush_step(s).1;
    if s.memtable.len() > 0 {
        lemma_table_on_disk(w);
        lemma_perform_advances(w, step, removable);
        let (mid, clear) = perform(w, step, removable)->Some_0;
        let disk = table_on_disk(w);
        assert(mid == (World {
            store: StoreModel { memtable: Seq::empty(), ..disk.store },
            ..disk
        }));
        lemma_cleared(mid, disk, removable);
        lemma_perform_advances(mid, clear, removable);
    }
}

/// The end of a flush, from the emptying of the log on.
proof fn lemma_cleared(mid: World, disk: World, removable: nat)
    requires
        tables_sound(disk),
        mid == (World { store: StoreModel { memtable: Seq::empty(), ..disk.store }, ..disk }),
        mid.store.tables.len() > MAX_SSTABLES ==> merge_fits(mid.contents, mid.store.next_id),
    ensures
        run(mid, StepModel::ClearLog, removable) matches Some(after) && sound(after)
            && after.store.dir == mid.store.dir && after.store.memtable == Seq::<Pair>::empty()
            && after.log == Seq::<u8>::empty() && (if mid.store.tables.len() > MAX_SSTABLES {
            compacted_to(mid, after, removable)
        } else {
            after.store.tables == mid.store.tables && after.store.stale == mid.store.stale
        }) && forall|key: Seq<u8>| #[trigger]
            value_of(Seq::empty(), after.contents, key) == value_of(
                Seq::empty(),
                mid.contents,
                key,
            ),
{
    let empty = World {
        log: Seq::empty(),
        store: StoreModel { log_len: 0, ..mid.store },
        ..mid
    };
    lemma_perform_advances(mid, StepModel::ClearLog, removable);
    law_cleared_log_holds_nothing(mid.store.sequence);
    assert(old_tables(empty) =~= old_tables(disk));
    assert(with_old_tables(empty).tables == with_old_tables(disk).tables);
    assert forall|id: u64|
        empty.files.contains_key(#[trigger] table_path(empty.store.dir, id)) implies (empty.ids
        + empty.old_ids).contains(id) by {
        assert(disk.files.contains_key(table_path(disk.store.dir, id)));
    }
    assert forall|key: Seq<u8>| #[trigger] shadowed(empty.contents, empty.old_contents, key) by {
        assert(shadowed(disk.contents, disk.old_contents, key));
    }
    assert(tables_sound(empty));
    if mid.store.tables.len() > MAX_SSTABLES {
        let next = compact_step(empty.store);
        lemma_compaction(empty, removable);
        let after = run(moved_on(empty, next), next.1, removable)->Some_0;
        assert(moved_on(World { log: Seq::empty(), ..mid }, next) == moved_on(empty, next));
        assert(run(mid, StepModel::ClearLog, removable) == Some(after));
        assert(sound(after));
        assert forall|key: Seq<u8>| #[trigger] value_of(Seq::empty(), after.contents, key)
            == value_of(Seq::empty(), mid.contents, key) by {
            assert(value_of(empty.store.memtable, after.contents, key) == value_of(
                empty.store.memtable,
                empty.contents,
                key,
            ));
        }
    } else {
        assert(run(empty, StepModel::Done, removable) == Some(empty));
    }
}

/// Whether a commit of `writes` gets its sequence numbers and fits in the log.
pub open spec fn can_log(w: World, writes: Seq<Pair>) -> bool {
    &&& w.store.sequence + writes.len() <= u64::MAX
    &&& framable(batch(writes, 0, w.store.sequence))
    &&& w.log.len() + run_commit(w.store, fresh_commit(writes)).2.len() <= u64::MAX
}

/// Whether a commit of `writes` can be logged, and, where it leads to a flush, what that writes
/// fits.
pub open spec fn can_commit(w: World, writes: Seq<Pair>) -> bool {
    let memtable = put_all(w.store.memtable, writes);
    &&& can_log(w, writes)
    &&& over_budget(StoreModel { memtable, ..w.store }) ==> flush_fits(w, memtable)
}

/// A commit of which nothing has been logged yet.
pub open spec fn fresh_commit(writes: Seq<Pair>) -> CommitModel {
    CommitModel { writes, logged: 0, bytes: 0 }
}

/// A commit runs to its end, leaves the files sound, and changes the values of its keys.
proof fn lemma_commit(w: World, writes: Seq<Pair>, removable: nat)
    requires
        sound(w),
        can_commit(w, writes),
    ensures
        ({
            let (store, step) = log_step(w.store, fresh_commit(writes));
            run(World { store, ..w }, step, removable) matches Some(after) && sound(after)
                && after.store.dir == w.store.dir && forall|key: Seq<u8>| #[trigger]
                value_of(after.store.memtable, after.contents, key) == (if as_map(
                    writes,
                ).contains_key(key) {
                    entry_value(as_map(writes)[key])
                } else {
                    value_of(w.store.memtable, w.contents, key)
                })
        }),
{
    let s = w.store;
    let c = fresh_commit(writes);
    let (last, done, bytes) = run_commit(s, c);
    lemma_run_commit(s, c);
    lemma_run_commit_steps(w, c, removable);
    law_commit_is_durable_and_atomic(w.log, s, writes, bytes.len() as int);
    let full = World {
        log: w.log + bytes,
        store: StoreModel {
            memtable: put_all(s.memtable, writes),
            sequence: last.sequence,
            log_len: (w.log + bytes).len() as u64,
            ..s
        },
        ..w
    };
    lemma_put_all(s.memtable, writes);
    lemma_same_tables(w, full);
    assert(sound(full));
    assert forall|key: Seq<u8>| #[trigger] value_of(full.store.memtable, w.contents, key) == (
    if as_map(writes).contains_key(key) {
        entry_value(as_map(writes)[key])
    } else {
        value_of(s.memtable, w.contents, key)
    }) by {
        law_commit_changes_exactly_its_keys(s.memtable, w.contents, writes, key);
    }
    let (store, next) = committed_step(last, done);
    assert(store == full.store);
    if over_budget(full.store) {
        lemma_flush(full, removable);
    } else {
        assert(run(full, next, removable) == Some(full));
    }
}

/// What happens to the memtable and the log alone leaves the table files sound.
proof fn lemma_same_tables(w: World, after: World)
    requires
        tables_sound(w),
        after.files == w.files,
        after.contents == w.contents,
        after.ids == w.ids,
        after.old_contents == w.old_contents,
        after.old_ids == w.old_ids,
        after.store.dir == w.store.dir,
        after.store.tables == w.store.tables,
        after.store.next_id == w.store.next_id,
        after.store.stale == w.store.stale,
    ensures
        tables_sound(after),
{
    assert(old_tables(after) =~= old_tables(w));
    assert forall|id: u64|
        after.files.contains_key(#[trigger] table_path(after.store.dir, id)) implies (after.ids
        + after.old_ids).contains(id) by {
        assert(w.files.contains_key(table_path(w.store.dir, id)));
    }
    assert forall|key: Seq<u8>| #[trigger] shadowed(after.contents, after.old_contents, key) by {
        assert(shadowed(w.contents, w.old_contents, key));
    }
}

// ---- reopening ----

/// Whether `found` lists the table files of the directory, each once, with its number and the table
/// that opening it gives.
pub open spec fn lists(w: World, found: Seq<(u64, TableModel)>) -> bool {
    &&& forall|i: int, j: int|
        0 <= i < j < found.len() ==> (#[trigger] found[i]).0 != (#[trigger] found[j]).0
    &&& forall|id: u64, t: TableModel| #[trigger]
        found.contains((id, t)) <==> {
            let path = table_path(w.store.dir, id);
            w.files.contains_key(path) && opened(path, w.files[path]) == Some(t)
        }
}

/// A table opened anew from its files: its tables in order, and what recovery keeps of the log
/// replayed; `None` if the log cannot be replayed.
pub open spec fn reopened(w: World, found: Seq<(u64, TableModel)>) -> Option<World> {
    let len = committed_len(w.log);
    match replay(blank_replay(), committed(log_entries(w.log))) {
        Err(text) => None,
        Ok(r) => Some(
            World {
                log: w.log.take(len as int),
                store: StoreModel {
                    memtable: r.memtable,
                    budget: DEFAULT_MEMTABLE_MAX_BYTES,
                    sequence: r.sequence,
                    dir: w.store.dir,
                    tables: tables_of(newest_first(found)),
                    next_id: next_number(found) as u64,
                    log_len: len as u64,
                    stale: Seq::empty(),
                },
                contents: w.contents + w.old_contents,
                ids: w.ids + w.old_ids,
                old_contents: Seq::empty(),
                old_ids: Seq::empty(),
                ..w
            },
        ),
    }
}

/// A directory listing gives the tables of all files of a sound world.
proof fn lemma_lists(w: World, found: Seq<(u64, TableModel)>)
    requires
        tables_sound(w),
        lists(w, found),
    ensures
        forall|x: (u64, TableModel)| #[trigger]
            found.contains(x) <==> numbered_tables(with_old_tables(w), w.ids + w.old_ids).contains(
                x,
            ),
{
    let s = with_old_tables(w);
    let ids = w.ids + w.old_ids;
    let contents = w.contents + w.old_contents;
    let ours = numbered_tables(s, ids);
    assert forall|x: (u64, TableModel)| #[trigger] found.contains(x) <==> ours.contains(x) by {
        let (id, t) = x;
        assert(x == (id, t));
        let path = table_path(s.dir, id);
        if found.contains((id, t)) {
            assert(w.files.contains_key(table_path(w.store.dir, id)));
            let j = choose|j: int| 0 <= j < ids.len() && ids[j] == id;
            assert(holds(w.files, s.tables[j], contents[j]));
            law_opening_a_file_gives_back_its_table(path, contents[j]);
            assert(ours[j] == x);
        }
        if ours.contains(x) {
            let j = choose|j: int| 0 <= j < ours.len() && ours[j] == x;
            assert(ids[j] == id);
            assert(holds(w.files, s.tables[j], contents[j]));
            law_opening_a_file_gives_back_its_table(path, contents[j]);
            assert(found.contains((id, t)));
        }
    }
}

/// Reopening leaves the files sound and changes no value, if the log up to its last commit holds
/// the memtable.
proof fn lemma_reopened(w: World, found: Seq<(u64, TableModel)>)
    requires
        sorted(w.store.memtable),
        tables_sound(w),
        lists(w, found),
        w.log.len() <= u64::MAX,
        log_holds(
            w.log.take(committed_len(w.log) as int),
            w.store.memtable,
            w.store.sequence,
        ),
    ensures
        reopened(w, found) matches Some(after) && sound(after) && after.store.dir == w.store.dir
            && after.store.memtable == w.store.memtable && forall|key: Seq<u8>| #[trigger]
            value_of(w.store.memtable, after.contents, key) == value_of(
                w.store.memtable,
                w.contents,
                key,
            ),
{
    let kept = w.log.take(committed_len(w.log) as int);
    let all = with_old_tables(w);
    let ids = w.ids + w.old_ids;
    law_recovery_keeps_the_committed(w.log);
    lemma_lists(w, found);
    law_reopening_gives_the_store_back(kept, all, ids, found);
    let after = reopened(w, found)->Some_0;
    assert(kept.take(kept.len() as int) =~= kept);
    assert(old_tables(after) =~= Seq::<TableModel>::empty());
    assert(with_old_tables(after).tables =~= all.tables);
    assert(after.contents + after.old_contents =~= w.contents + w.old_contents);
    assert(after.ids + after.old_ids =~= ids);
    assert(numbered(with_old_tables(after), after.ids + after.old_ids));
    assert(after.store.stale =~= removal_order(old_tables(after)));
    assert forall|id: u64|
        after.files.contains_key(#[trigger] table_path(after.store.dir, id)) implies (after.ids
        + after.old_ids).contains(id) by {
        assert(w.files.contains_key(table_path(w.store.dir, id)));
    }
    assert forall|key: Seq<u8>| #[trigger] value_of(w.store.memtable, after.contents, key)
        == value_of(w.store.memtable, w.contents, key) by {
        assert(shadowed(w.contents, w.old_contents, key));
        law_stale_files_change_no_value(w.store.memtable, w.contents, w.old_contents, key);
    }
}

// ---- histories ----

/// What can happen to a table.
pub enum Event {
    /// Some writes are committed. If that leads to a compaction, `removable` of the old files can
    /// be removed.
    Commit { writes: Seq<Pair>, removable: nat },
    /// A commit fails after some of its appends; `reached` is what has reached the log by then.
    FailedCommit { writes: Seq<Pair>, appended: nat, reached: Seq<u8> },
    /// The memtable is flushed.
    Flush { removable: nat },
    /// The tables are compacted.
    Compact { removable: nat },
    /// The budget of the memtable is set.
    SetBudget { bytes: usize },
    /// The table is opened anew, with these table files found.
    Reopen { found: Seq<(u64, TableModel)> },
    /// A crash in a commit, when `n` bytes of it have reached the log, and the table opened anew.
    CrashInCommit { writes: Seq<Pair>, n: nat, found: Seq<(u64, TableModel)> },
    /// A crash in a flush, between writing the table file and emptying the log, and the table
    /// opened anew.
    CrashInFlush { found: Seq<(u64, TableModel)> },
}

/// What an event makes of a world; `None` if it cannot go through.
pub open spec fn happen(w: World, e: Event) -> Option<World> {
    match e {
        Event::Commit { writes, removable } => {
            let (store, step) = log_step(w.store, fresh_commit(writes));
            run(World { store, ..w }, step, removable)
        },
        Event::FailedCommit { writes, appended, reached } => {
            let store = after_appends(w.store, fresh_commit(writes), appended);
            run(World { log: w.log + reached, store, ..w }, commit_failed_step(store), 0)
        },
        Event::Flush { removable } => {
            let (store, step) = flush_step(w.store);
            run(World { store, ..w }, step, removable)
        },
        Event::Compact { removable } => {
            let next = compact_step(w.store);
            run(moved_on(w, next), next.1, removable)
        },
        Event::SetBudget { bytes } => Some(
            World { store: StoreModel { budget: bytes, ..w.store }, ..w },
        ),
        Event::Reopen { found } => reopened(w, found),
        Event::CrashInCommit { writes, n, found } => reopened(
            cut_in_commit(w, writes, n),
            found,
        ),
        Event::CrashInFlush { found } => reopened(table_on_disk(w), found),
    }
}

/// The world in which only `n` bytes of a commit have reached the log.
pub open spec fn cut_in_commit(w: World, writes: Seq<Pair>, n: nat) -> World {
    let bytes = run_commit(w.store, fresh_commit(writes)).2;
    World { log: w.log + bytes.take(n as int), ..w }
}

/// Whether an event can happen: what it writes fits in its fields, no counter is used up, and the
/// files that are found are those that are there.
pub open spec fn possible(w: World, e: Event) -> bool {
    match e {
        Event::Commit { writes, removable } => can_commit(w, writes),
        Event::FailedCommit { writes, appended, reached } => appended <= writes.len()
            && w.store.sequence + appended <= u64::MAX,
        Event::Flush { removable } => flush_fits(w, w.store.memtable),
        Event::Compact { removable } => w.store.tables.len() >= 2 ==> merge_fits(
            w.contents,
            w.store.next_id,
        ),
        Event::SetBudget { bytes } => true,
        Event::Reopen { found } => lists(w, found),
        Event::CrashInCommit { writes, n, found } => lists(w, found) && can_log(w, writes) && n
            < run_commit(w.store, fresh_commit(writes)).2.len(),
        Event::CrashInFlush { found } => lists(table_on_disk(w), found) && w.store.memtable.len()
            > 0 && fits(w.store.memtable) && w.store.next_id < u64::MAX,
    }
}

/// What an event writes to a key, if anything: only a commit that goes through writes.
pub open spec fn written(e: Event, key: Seq<u8>) -> Option<EntryModel> {
    match e {
        Event::Commit { writes, removable } => if as_map(writes).contains_key(key) {
            Some(as_map(writes)[key])
        } else {
            None
        },
        _ => None,
    }
}

/// What a history makes of a world.
pub open spec fn unfold(w: World, events: Seq<Event>) -> Option<World>
    decreases events.len(),
{
    if events.len() == 0 {
        Some(w)
    } else {
        match unfold(w, events.drop_last()) {
            Some(before) => happen(before, events.last()),
            None => None,
        }
    }
}

/// Whether every event of a history can happen when its turn comes.
pub open spec fn all_possible(w: World, events: Seq<Event>) -> bool
    decreases events.len(),
{
    events.len() == 0 || (all_possible(w, events.drop_last()) && (unfold(
        w,
        events.drop_last(),
    ) matches Some(before) ==> possible(before, events.last())))
}

/// The last write to a key in a history that began with the value `first`: the value of a put, and
/// none for a delete.
pub open spec fn last_written(
    first: Option<ValueModel>,
    events: Seq<Event>,
    key: Seq<u8>,
) -> Option<ValueModel>
    decreases events.len(),
{
    if events.len() == 0 {
        first
    } else {
        match written(events.last(), key) {
            Some(e) => entry_value(e),
            None => last_written(first, events.drop_last(), key),
        }
    }
}

/// The value of a key in a world.
pub open spec fn value_at(w: World, key: Seq<u8>) -> Option<ValueModel> {
    value_of(w.store.memtable, w.contents, key)
}

/// A world in which a table has just been opened in a directory without any files of it.
pub open spec fn fresh_world(dir: Seq<char>, files: Map<Seq<char>, Seq<u8>>) -> World {
    World {
        log: Seq::empty(),
        files,
        store: StoreModel {
            memtable: Seq::empty(),
            budget: DEFAULT_MEMTABLE_MAX_BYTES,
            sequence: 0,
            dir,
            tables: Seq::empty(),
            next_id: 1,
            log_len: 0,
            stale: Seq::empty(),
        },
        contents: Seq::empty(),
        ids: Seq::empty(),
        old_contents: Seq::empty(),
        old_ids: Seq::empty(),
    }
}

/// In a fresh directory the files stand for the store, and no key has a value.
pub proof fn law_fresh_world_is_sound(dir: Seq<char>, files: Map<Seq<char>, Seq<u8>>, key: Seq<u8>)
    requires
        forall|id: u64| !files.contains_key(#[trigger] table_path(dir, id)),
    ensures
        sound(fresh_world(dir, files)),
        value_at(fresh_world(dir, files), key) is None,
{
    let w = fresh_world(dir, files);
    law_cleared_log_holds_nothing(0);
    let none = Seq::<Pair>::empty();
    assert(as_map(none) == Map::<Seq<u8>, EntryModel>::empty());
    assert(old_tables(w) =~= Seq::<TableModel>::empty());
    assert(with_old_tables(w).tables =~= Seq::<TableModel>::empty());
    assert(w.store.stale =~= removal_order(old_tables(w)));
    assert(w.contents + w.old_contents =~= Seq::<Seq<Pair>>::empty());
    assert(w.ids + w.old_ids =~= Seq::<u64>::empty());
}

/// Every event goes through and leaves the files standing for the store. It gives the keys that it
/// writes their new values and leaves every other key alone: a flush, a compaction, whatever it
/// fails to remove, a failed commit, a reopening and a crash change no value.
pub proof fn law_event_changes_only_what_it_writes(w: World, e: Event)
    requires
        sound(w),
        possible(w, e),
    ensures
        happen(w, e) matches Some(after) && sound(after) && after.store.dir == w.store.dir
            && forall|key: Seq<u8>| #[trigger]
            value_at(after, key) == (match written(e, key) {
                Some(entry) => entry_value(entry),
                None => value_at(w, key),
            }),
{
    match e {
        Event::Commit { writes, removable } => {
            lemma_commit(w, writes, removable);
        },
        Event::FailedCommit { writes, appended, reached } => {
            let c = fresh_commit(writes);
            let store = after_appends(w.store, c, appended);
            law_logging_only_takes_numbers(w.store, c, appended);
            law_failed_commit_leaves_nothing(w.log, w.store, store, reached);
            let cut = World { log: w.log + reached, store, ..w };
            let step = commit_failed_step(store);
            lemma_perform_advances(cut, step, 0);
            let after = World { store, ..w };
            lemma_same_tables(w, after);
            assert(perform(cut, step, 0) == Some((after, StepModel::Done)));
            assert(run(after, StepModel::Done, 0) == Some(after));
        },
        Event::Flush { removable } => {
            lemma_flush(w, removable);
        },
        Event::Compact { removable } => {
            lemma_compaction(w, removable);
        },
        Event::SetBudget { bytes } => {
            lemma_same_tables(w, happen(w, e)->Some_0);
        },
        Event::Reopen { found } => {
            assert(w.log.take(w.log.len() as int) =~= w.log);
            lemma_reopened(w, found);
        },
        Event::CrashInCommit { writes, n, found } => {
            let cut = cut_in_commit(w, writes, n);
            law_commit_is_durable_and_atomic(w.log, w.store, writes, n as int);
            lemma_same_tables(w, cut);
            lemma_reopened(cut, found);
        },
        Event::CrashInFlush { found } => {
            let disk = table_on_disk(w);
            lemma_table_on_disk(w);
            assert(disk.log.take(disk.log.len() as int) =~= disk.log);
            lemma_reopened(disk, found);
        },
    }
}

/// A flush as a whole. A memtable that is empty is not flushed, and nothing changes. Else the
/// memtable and the log are empty afterwards, and there is one table more, or at most one if that
/// would be too many, and no other table file if all old ones can be removed. Every lookup and
/// every scan gives what it gave before.
pub proof fn law_flush_as_a_whole(
    w: World,
    removable: nat,
    key: Seq<u8>,
    lo: BoundModel,
    hi: BoundModel,
)
    requires
        sound(w),
        flush_fits(w, w.store.memtable),
    ensures
        run(w, flush_step(w.store).1, removable) matches Some(after) && sound(after) && flushed_to(
            w,
            after,
            removable,
        ) && same_results(w, after, key, lo, hi),
{
    lemma_flush(w, removable);
    let after = run(w, flush_step(w.store).1, removable)->Some_0;
    assert forall|k: Seq<u8>| #[trigger] value_at(after, k) == value_at(w, k) by {
        assert(value_of(after.store.memtable, after.contents, k) == value_of(
            w.store.memtable,
            w.contents,
            k,
        ));
    }
    lemma_same_results(w, after, key, lo, hi);
}

/// Whether a lookup and a scan give the same in two worlds.
pub open spec fn same_results(
    w: World,
    after: World,
    key: Seq<u8>,
    lo: BoundModel,
    hi: BoundModel,
) -> bool {
    &&& run_lookup(after.files, after.store.tables, key, lookup_start(after.store, key))
        == run_lookup(w.files, w.store.tables, key, lookup_start(w.store, key))
    &&& run_scan(
        after.files,
        after.store,
        scan_step(after.store, merge_start(after.store.tables, lo, hi)),
    ) == run_scan(w.files, w.store, scan_step(w.store, merge_start(w.store.tables, lo, hi)))
}

/// Where every key has the same value, lookups and scans give the same.
proof fn lemma_same_results(w: World, after: World, key: Seq<u8>, lo: BoundModel, hi: BoundModel)
    requires
        sound(w),
        sound(after),
        forall|k: Seq<u8>| #[trigger] value_at(after, k) == value_at(w, k),
    ensures
        same_results(w, after, key, lo, hi),
{
    lemma_tables_hold(w);
    lemma_tables_hold(after);
    law_lookup_finds_the_newest(w.files, w.store, w.contents, key);
    law_lookup_finds_the_newest(after.files, after.store, after.contents, key);
    assert(value_at(after, key) == value_at(w, key));
    law_scan_gives_every_value_in_order(w.files, w.store, w.contents, lo, hi);
    law_scan_gives_every_value_in_order(after.files, after.store, after.contents, lo, hi);
    let a = run_scan(
        w.files,
        w.store,
        scan_step(w.store, merge_start(w.store.tables, lo, hi)),
    )->Ok_0;
    let b = run_scan(
        after.files,
        after.store,
        scan_step(after.store, merge_start(after.store.tables, lo, hi)),
    )->Ok_0;
    assert forall|x: (Seq<u8>, ValueModel)| #[trigger] a.contains(x) <==> b.contains(x) by {
        let (k, v) = x;
        assert(x == (k, v));
        assert(value_at(after, k) == value_at(w, k));
        assert(a.contains((k, v)) <==> within(k, lo, hi) && value_at(w, k) == Some(v));
        assert(b.contains((k, v)) <==> within(k, lo, hi) && value_at(after, k) == Some(v));
    }
    lemma_ascending_unique(a, b);
}

/// After any history a lookup gives the last value that was written to its key: that of the last
/// put, or none if the last write was a delete, whichever layers hold older entries. Before the
/// first write the key has the value it had at first. What was committed survives every flush,
/// compaction, reopening and crash, and nothing of a failed commit is ever seen.
pub proof fn law_last_write_wins(w: World, events: Seq<Event>, key: Seq<u8>)
    requires
        sound(w),
        all_possible(w, events),
    ensures
        unfold(w, events) matches Some(after) && sound(after) && value_at(after, key)
            == last_written(value_at(w, key), events, key) && run_lookup(
            after.files,
            after.store.tables,
            key,
            lookup_start(after.store, key),
        ) == Ok::<Option<ValueModel>, Seq<char>>(last_written(value_at(w, key), events, key)),
    decreases events.len(),
{
    if events.len() > 0 {
        law_last_write_wins(w, events.drop_last(), key);
        let before = unfold(w, events.drop_last())->Some_0;
        law_event_changes_only_what_it_writes(before, events.last());
    }
    let after = unfold(w, events)->Some_0;
    assert(value_at(after, key) == last_written(value_at(w, key), events, key));
    lemma_tables_hold(after);
    law_lookup_finds_the_newest(after.files, after.store, after.contents, key);
}

/// After any history, opening the table anew gives the same results: every lookup and every scan
/// gives what it gave before.
pub proof fn law_reopening_changes_no_result(
    w: World,
    found: Seq<(u64, TableModel)>,
    key: Seq<u8>,
    lo: BoundModel,
    hi: BoundModel,
)
    requires
        sound(w),
        lists(w, found),
    ensures
        happen(w, Event::Reopen { found }) matches Some(after) && sound(after) && same_results(
            w,
            after,
            key,
            lo,
            hi,
        ),
{
    let e = Event::Reopen { found };
    law_event_changes_only_what_it_writes(w, e);
    let after = happen(w, e)->Some_0;
    assert forall|k: Seq<u8>| #[trigger] value_at(after, k) == value_at(w, k) by {
        assert(written(e, k) is None);
    }
    lemma_same_results(w, after, key, lo, hi);
}

/// What can happen: a commit whenever its numbers are not used up and its bytes fit in the log,
/// and, only where it reaches the budget, what is flushed fits in a table file; a flush and a
/// compaction whenever what they write fits; a failed commit and a reopening always.
pub proof fn law_what_can_happen(
    w: World,
    writes: Seq<Pair>,
    removable: nat,
    found: Seq<(u64, TableModel)>,
    bytes: usize,
    contents: Seq<Seq<Pair>>,
    id: u64,
    memtable: Seq<Pair>,
)
    ensures
        possible(w, Event::Commit { writes, removable }) <==> {
            &&& w.store.sequence + writes.len() <= u64::MAX
            &&& framable(batch(writes, 0, w.store.sequence))
            &&& w.log.len() + run_commit(
                w.store,
                CommitModel { writes, logged: 0, bytes: 0 },
            ).2.len() <= u64::MAX
            &&& over_budget(StoreModel { memtable: put_all(w.store.memtable, writes), ..w.store })
                ==> flush_fits(w, put_all(w.store.memtable, writes))
        },
        possible(w, Event::Flush { removable }) <==> flush_fits(w, w.store.memtable),
        possible(w, Event::Compact { removable }) <==> (w.store.tables.len() >= 2 ==> merge_fits(
            w.contents,
            w.store.next_id,
        )),
        possible(w, Event::SetBudget { bytes }),
        possible(w, Event::Reopen { found }) <==> lists(w, found),
        flush_fits(w, memtable) <==> (memtable.len() > 0 ==> fits(memtable) && w.store.next_id
            < u64::MAX && (w.store.tables.len() >= 8 ==> merge_fits(
            seq![memtable] + w.contents,
            (w.store.next_id + 1) as u64,
        ))),
        merge_fits(contents, id) <==> (compacted(contents).len() > 0 ==> fits(compacted(contents))
            && id < u64::MAX),
{
}

} // verus!
