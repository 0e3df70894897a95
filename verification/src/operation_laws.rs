//! Laws of the operations as their callers see them: what one call gives after another, over the
//! bytes and keys that went in.

use vstd::prelude::*;
use crate::bounds::{
    law_bounds_are_meant_in_key_order, law_prefix_bounds_are_exact, law_prefix_is_byte_by_byte,
    prefix_bound, within, BoundModel,
};
use crate::bytes::key_lt;
use crate::entry_map::{as_map, lemma_put_pair, put_pair, sorted};
use crate::errors::ErrorModel;
use crate::format::{pairs_in_block, Pair};
use crate::history_laws::{
    happen, law_event_changes_only_what_it_writes, lemma_tables_hold, possible, run, sound,
    value_at, written, Event, World,
};
use crate::interface_laws::{
    law_batch_gives_each_key_its_bytes, law_get_gives_the_newest_bytes, run_batch, run_get,
};
use crate::sstable::block_ref;
use crate::model::{
    entry_value, log_step, lookup_start, merge_after, merge_at, merge_start, next_read, put_all,
    scan_step, CommitModel, LookupModel, MergeModel, ScanModel, StoreModel,
};
use crate::read_laws::{
    blocks_left, law_lookup_finds_the_newest, law_scan_gives_every_value_in_order,
    lemma_lookup_advances, lemma_next_read, lemma_put_all, lookup_rank, read_block, run_lookup,
    run_scan, scan_blocks, scan_table, value_of,
};
use crate::table::{
    all_bytes, as_bytes, batch_step, byte_writes, contains_progress, get_after_block, scan_progress,
    ProgressModel, TableScanModel,
};
use crate::transaction::lookup_pending;
use crate::value::{EntryModel, ValueModel};

verus! {

// ---- what a call comes to ----

/// What looking a key up comes to.
pub open spec fn got(w: World, key: Seq<u8>) -> Result<Option<Seq<u8>>, ErrorModel> {
    run_get(w.files, w.store, key, lookup_start(w.store, key))
}

/// What asking for the presence of a key comes to when every block is read from `files`.
pub open spec fn run_contains(
    files: Map<Seq<char>, Seq<u8>>,
    s: StoreModel,
    key: Seq<u8>,
    l: LookupModel,
) -> Result<bool, ErrorModel>
    decreases lookup_rank(s.tables, l),
{
    match contains_progress(l) {
        Err(e) => Err(e),
        Ok(ProgressModel::Done(found)) => Ok(found),
        Ok(ProgressModel::Read { table, path, block }) => match l {
            LookupModel::Read { table: t, .. } => if t == table && 0 <= table < s.tables.len() {
                match get_after_block(
                    s,
                    key,
                    table,
                    block.block as int,
                    read_block(files[path], block),
                ) {
                    Err(e) => Err(e),
                    Ok(next) => {
                        proof {
                            lemma_lookup_advances(s.tables, table + 1, key);
                        }
                        run_contains(files, s, key, next)
                    },
                }
            } else {
                Ok(false)
            },
            LookupModel::Found(_) => Ok(false),
        },
    }
}

/// What asking for the presence of a key comes to.
pub open spec fn contained(w: World, key: Seq<u8>) -> Result<bool, ErrorModel> {
    run_contains(w.files, w.store, key, lookup_start(w.store, key))
}

/// What a scan of a table comes to when every block is read from `files`.
pub open spec fn run_pairs(
    files: Map<Seq<char>, Seq<u8>>,
    s: StoreModel,
    scan: ScanModel,
) -> Result<Seq<(Seq<u8>, Seq<u8>)>, ErrorModel>
    decreases scan_table(scan), scan_blocks(s.tables, scan),
{
    match scan_progress(scan) {
        Err(e) => Err(e),
        Ok(TableScanModel::Done(pairs)) => Ok(pairs),
        Ok(TableScanModel::ReadBlock { path, block, merge }) => match scan {
            ScanModel::ReadBlock { merge: m, .. } => if !(m == merge && 0 <= merge.table
                < s.tables.len() && 0 <= merge.block < s.tables[merge.table].index.len()) {
                Ok(Seq::empty())
            } else {
                match pairs_in_block(
                    s.tables[merge.table].index[merge.block].block_offset,
                    read_block(files[path], block),
                ) {
                    Err(text) => Err(ErrorModel::Internal(text)),
                    Ok(pairs) => {
                        proof {
                            let next = merge_after(merge, pairs);
                            lemma_next_read(s.tables, next.table, next.block, next.lo, next.hi);
                        }
                        run_pairs(files, s, scan_step(s, merge_after(merge, pairs)))
                    },
                }
            },
            ScanModel::Done(_) => Ok(Seq::empty()),
        },
    }
}

/// What a scan of a table within the bounds comes to.
pub open spec fn scanned(w: World, lo: BoundModel, hi: BoundModel) -> Result<
    Seq<(Seq<u8>, Seq<u8>)>,
    ErrorModel,
> {
    run_pairs(w.files, w.store, scan_step(w.store, merge_start(w.store.tables, lo, hi)))
}

/// The world once some writes have been committed.
pub open spec fn after_commit(w: World, writes: Seq<Pair>, removable: nat) -> Option<World> {
    let (store, step) = log_step(w.store, CommitModel { writes, logged: 0, bytes: 0 });
    run(World { store, ..w }, step, removable)
}

// ---- get and contains ----

/// Looking a key up gives the very bytes that are its value, all of them, and nothing for a key
/// that has no value. Only a value that is not bytes is an error.
pub proof fn law_get_gives_the_bytes_themselves(w: World, key: Seq<u8>)
    requires
        sound(w),
    ensures
        match value_at(w, key) {
            Some(ValueModel::Bytes(v)) => got(w, key) == Ok::<Option<Seq<u8>>, ErrorModel>(Some(v)),
            Some(_) => got(w, key) == Err::<Option<Seq<u8>>, ErrorModel>(
                ErrorModel::UnexpectedValue,
            ),
            None => got(w, key) == Ok::<Option<Seq<u8>>, ErrorModel>(None),
        },
{
    lemma_tables_hold(w);
    law_get_gives_the_newest_bytes(w.files, w.store, w.contents, key);
}

proof fn lemma_contains(
    files: Map<Seq<char>, Seq<u8>>,
    s: StoreModel,
    key: Seq<u8>,
    l: LookupModel,
)
    ensures
        run_contains(files, s, key, l) == (match run_get(files, s, key, l) {
            Ok(found) => Ok(found is Some),
            Err(e) => Err(e),
        }),
    decreases lookup_rank(s.tables, l),
{
    if let LookupModel::Read { table, path, block } = l {
        if 0 <= table < s.tables.len() {
            if let Ok(next) = get_after_block(
                s,
                key,
                table,
                block.block as int,
                read_block(files[path], block),
            ) {
                lemma_lookup_advances(s.tables, table + 1, key);
                lemma_contains(files, s, key, next);
            }
        }
    }
}

/// A key is present exactly if it has a value, and exactly if looking it up gives one; it fails
/// where looking it up fails.
pub proof fn law_contains_tells_whether_there_is_a_value(w: World, key: Seq<u8>)
    requires
        sound(w),
    ensures
        contained(w, key) == (match got(w, key) {
            Ok(found) => Ok(found is Some),
            Err(e) => Err(e),
        }),
        match value_at(w, key) {
            Some(ValueModel::Bytes(v)) => contained(w, key) == Ok::<bool, ErrorModel>(true),
            Some(_) => contained(w, key) == Err::<bool, ErrorModel>(ErrorModel::UnexpectedValue),
            None => contained(w, key) == Ok::<bool, ErrorModel>(false),
        },
{
    lemma_contains(w.files, w.store, key, lookup_start(w.store, key));
    law_get_gives_the_bytes_themselves(w, key);
}

// ---- put and delete ----

proof fn lemma_commit_then(w: World, writes: Seq<Pair>, removable: nat)
    requires
        sound(w),
        possible(w, Event::Commit { writes, removable }),
    ensures
        after_commit(w, writes, removable) matches Some(after) && sound(after) && forall|
            key: Seq<u8>,
        | #[trigger]
            value_at(after, key) == (if as_map(writes).contains_key(key) {
                entry_value(as_map(writes)[key])
            } else {
                value_at(w, key)
            }),
{
    let e = Event::Commit { writes, removable };
    law_event_changes_only_what_it_writes(w, e);
    let after = happen(w, e)->Some_0;
    assert(after_commit(w, writes, removable) == Some(after));
    assert forall|key: Seq<u8>| #[trigger] value_at(after, key) == (if as_map(writes).contains_key(
        key,
    ) {
        entry_value(as_map(writes)[key])
    } else {
        value_at(w, key)
    }) by {
        assert(written(e, key) == (if as_map(writes).contains_key(key) {
            Some(as_map(writes)[key])
        } else {
            None
        }));
    }
}

proof fn lemma_single(key: Seq<u8>, e: EntryModel)
    ensures
        as_map(seq![(key, e)]) == Map::<Seq<u8>, EntryModel>::empty().insert(key, e),
{
    let s = seq![(key, e)];
    assert(s.drop_last() =~= Seq::<Pair>::empty());
    assert(as_map(s.drop_last()) == Map::<Seq<u8>, EntryModel>::empty());
}

/// What is put is got back, byte for byte, and is present; every other key gives what it gave
/// before.
pub proof fn law_put_is_got_back(
    w: World,
    key: Seq<u8>,
    value: Seq<u8>,
    other: Seq<u8>,
    removable: nat,
)
    requires
        sound(w),
        possible(
            w,
            Event::Commit {
                writes: seq![(key, EntryModel::Value(ValueModel::Bytes(value)))],
                removable,
            },
        ),
    ensures
        after_commit(
            w,
            seq![(key, EntryModel::Value(ValueModel::Bytes(value)))],
            removable,
        ) matches Some(after) && sound(after) && got(after, key) == Ok::<
            Option<Seq<u8>>,
            ErrorModel,
        >(Some(value)) && contained(after, key) == Ok::<bool, ErrorModel>(true) && (other != key
            ==> got(after, other) == got(w, other) && contained(after, other) == contained(
            w,
            other,
        )),
{
    let e = EntryModel::Value(ValueModel::Bytes(value));
    lemma_single(key, e);
    lemma_commit_then(w, seq![(key, e)], removable);
    let after = after_commit(w, seq![(key, e)], removable)->Some_0;
    assert(value_at(after, key) == Some(ValueModel::Bytes(value)));
    assert(other != key ==> value_at(after, other) == value_at(w, other));
    law_get_gives_the_bytes_themselves(after, key);
    law_get_gives_the_bytes_themselves(after, other);
    law_get_gives_the_bytes_themselves(w, other);
    law_contains_tells_whether_there_is_a_value(after, key);
    law_contains_tells_whether_there_is_a_value(after, other);
    law_contains_tells_whether_there_is_a_value(w, other);
}

/// What is deleted is not found any more; every other key gives what it gave before.
pub proof fn law_delete_is_not_found(w: World, key: Seq<u8>, other: Seq<u8>, removable: nat)
    requires
        sound(w),
        possible(w, Event::Commit { writes: seq![(key, EntryModel::Tombstone)], removable }),
    ensures
        after_commit(w, seq![(key, EntryModel::Tombstone)], removable) matches Some(after) && sound(
            after,
        ) && got(after, key) == Ok::<Option<Seq<u8>>, ErrorModel>(None) && contained(after, key)
            == Ok::<bool, ErrorModel>(false) && (other != key ==> got(after, other) == got(w, other)
            && contained(after, other) == contained(w, other)),
{
    lemma_single(key, EntryModel::Tombstone);
    lemma_commit_then(w, seq![(key, EntryModel::Tombstone)], removable);
    let after = after_commit(w, seq![(key, EntryModel::Tombstone)], removable)->Some_0;
    assert(value_at(after, key) is None);
    assert(other != key ==> value_at(after, other) == value_at(w, other));
    law_get_gives_the_bytes_themselves(after, key);
    law_get_gives_the_bytes_themselves(after, other);
    law_get_gives_the_bytes_themselves(w, other);
    law_contains_tells_whether_there_is_a_value(after, key);
    law_contains_tells_whether_there_is_a_value(after, other);
    law_contains_tells_whether_there_is_a_value(w, other);
}

// ---- put_batch ----

/// Whether the `i`-th entry is the last one for its key.
pub open spec fn last_for_its_key(entries: Seq<(&[u8], &[u8])>, i: int) -> bool {
    forall|j: int| i < j < entries.len() ==> (#[trigger] entries[j]).0@ != entries[i].0@
}

/// The writes of a batch are exactly its entries: each key that is listed is written the last value
/// that is listed for it, and no other key is written. A batch that lists anything writes
/// something.
pub proof fn law_batch_writes_every_entry(entries: Seq<(&[u8], &[u8])>, i: int, key: Seq<u8>)
    ensures
        ({
            let writes = as_map(put_all(Seq::empty(), byte_writes(entries)));
            &&& 0 <= i < entries.len() && last_for_its_key(entries, i) ==> writes.contains_key(
                entries[i].0@,
            ) && writes[entries[i].0@] == EntryModel::Value(ValueModel::Bytes(entries[i].1@))
            &&& writes.contains_key(key) ==> exists|j: int|
                0 <= j < entries.len() && (#[trigger] entries[j]).0@ == key
            &&& 0 <= i < entries.len() ==> put_all(Seq::empty(), byte_writes(entries)).len() > 0
        }),
    decreases entries.len(),
{
    let none = Seq::<Pair>::empty();
    assert(as_map(none) == Map::<Seq<u8>, EntryModel>::empty());
    let writes = put_all(none, byte_writes(entries));
    if entries.len() > 0 {
        let n = entries.len() - 1;
        let before = entries.drop_last();
        let last = entries.last();
        let pair = (last.0@, EntryModel::Value(ValueModel::Bytes(last.1@)));
        assert(byte_writes(entries).drop_last() =~= byte_writes(before));
        assert(byte_writes(entries).last() == pair);
        lemma_put_all(none, byte_writes(before));
        lemma_put_pair(put_all(none, byte_writes(before)), pair);
        assert(as_map(writes) == as_map(put_all(none, byte_writes(before))).insert(pair.0, pair.1));
        law_batch_writes_every_entry(before, i, key);
        if 0 <= i < n && last_for_its_key(entries, i) {
            assert(before[i] == entries[i]);
            assert(entries[n].0@ != entries[i].0@);
            assert forall|j: int| i < j < before.len() implies (#[trigger] before[j]).0@
                != before[i].0@ by {
                assert(entries[j].0@ != entries[i].0@);
            }
        }
        if as_map(writes).contains_key(key) {
            if key == last.0@ {
                assert(entries[n].0@ == key);
            } else {
                let j = choose|j: int| 0 <= j < before.len() && (#[trigger] before[j]).0@ == key;
                assert(entries[j].0@ == key);
            }
        }
        assert(as_map(writes).contains_key(pair.0));
    }
}

/// All entries of a batch land. After its commit every key that is listed gives the last value that
/// is listed for it, and every other key gives what it gave before.
pub proof fn law_batch_is_got_back(
    w: World,
    entries: Seq<(&[u8], &[u8])>,
    i: int,
    other: Seq<u8>,
    removable: nat,
)
    requires
        sound(w),
        possible(
            w,
            Event::Commit { writes: put_all(Seq::empty(), byte_writes(entries)), removable },
        ),
    ensures
        after_commit(
            w,
            put_all(Seq::empty(), byte_writes(entries)),
            removable,
        ) matches Some(after) && sound(after) && (0 <= i < entries.len() && last_for_its_key(
            entries,
            i,
        ) ==> got(after, entries[i].0@) == Ok::<Option<Seq<u8>>, ErrorModel>(Some(entries[i].1@)))
            && ((forall|j: int| 0 <= j < entries.len() ==> (#[trigger] entries[j]).0@ != other)
            ==> got(after, other) == got(w, other)),
{
    let writes = put_all(Seq::empty(), byte_writes(entries));
    lemma_commit_then(w, writes, removable);
    let after = after_commit(w, writes, removable)->Some_0;
    law_batch_writes_every_entry(entries, i, other);
    if 0 <= i < entries.len() && last_for_its_key(entries, i) {
        assert(value_at(after, entries[i].0@) == Some(ValueModel::Bytes(entries[i].1@)));
        law_get_gives_the_bytes_themselves(after, entries[i].0@);
    }
    if forall|j: int| 0 <= j < entries.len() ==> (#[trigger] entries[j]).0@ != other {
        assert(value_at(after, other) == value_at(w, other));
        law_get_gives_the_bytes_themselves(after, other);
        law_get_gives_the_bytes_themselves(w, other);
    }
}

// ---- get_batch ----

/// Looking many keys up gives, in their order, what looking each of them up gives, and fails only
/// if one of those fails.
pub proof fn law_get_batch_is_many_gets(w: World, keys: Seq<Seq<u8>>)
    requires
        sound(w),
    ensures
        match run_batch(w.files, w.store, batch_step(w.store, keys, Seq::empty())) {
            Ok(found) => found.len() == keys.len() && forall|i: int|
                0 <= i < keys.len() ==> got(w, keys[i]) == Ok::<Option<Seq<u8>>, ErrorModel>(
                    #[trigger] found[i],
                ),
            Err(e) => exists|i: int|
                0 <= i < keys.len() && got(w, #[trigger] keys[i]) == Err::<
                    Option<Seq<u8>>,
                    ErrorModel,
                >(e),
        },
{
    lemma_tables_hold(w);
    law_batch_gives_each_key_its_bytes(w.files, w.store, w.contents, keys);
    match run_batch(w.files, w.store, batch_step(w.store, keys, Seq::empty())) {
        Ok(found) => {
            assert forall|i: int| 0 <= i < keys.len() implies got(w, keys[i]) == Ok::<
                Option<Seq<u8>>,
                ErrorModel,
            >(#[trigger] found[i]) by {
                law_get_gives_the_newest_bytes(w.files, w.store, w.contents, keys[i]);
            }
        },
        Err(e) => {
            let i = choose|i: int|
                0 <= i < keys.len() && as_bytes(
                    value_of(w.store.memtable, w.contents, #[trigger] keys[i]),
                ) is Err;
            law_get_gives_the_newest_bytes(w.files, w.store, w.contents, keys[i]);
            law_get_gives_the_bytes_themselves(w, keys[i]);
            assert(got(w, keys[i]) == Err::<Option<Seq<u8>>, ErrorModel>(e));
        },
    }
}

// ---- scans ----

proof fn lemma_run_pairs(files: Map<Seq<char>, Seq<u8>>, s: StoreModel, m: MergeModel)
    requires
        m.table < s.tables.len(),
        0 <= m.block,
    ensures
        run_pairs(files, s, scan_step(s, m)) == (match run_scan(files, s, scan_step(s, m)) {
            Ok(items) => all_bytes(items),
            Err(text) => Err(ErrorModel::Internal(text)),
        }),
    decreases m.table + 1, blocks_left(s.tables, m),
{
    lemma_next_read(s.tables, m.table, m.block, m.lo, m.hi);
    match next_read(s.tables, m.table, m.block, m.lo, m.hi) {
        None => {},
        Some((t, b)) => {
            let at = merge_at(m, t, b);
            if let Ok(pairs) = pairs_in_block(
                s.tables[t].index[b].block_offset,
                read_block(files[s.tables[t].path], block_ref(s.tables[t], b)),
            ) {
                lemma_run_pairs(files, s, merge_after(at, pairs));
            }
        },
    }
}

/// A scan within bounds gives each key within the bounds that a lookup gives bytes for, with those
/// bytes, and nothing else, in strictly ascending order of the keys. It fails only if there is a
/// key within the bounds whose lookup fails.
pub proof fn law_scan_gives_what_get_gives(w: World, lo: BoundModel, hi: BoundModel)
    requires
        sound(w),
    ensures
        match scanned(w, lo, hi) {
            Ok(pairs) => {
                &&& forall|i: int, j: int|
                    0 <= i < j < pairs.len() ==> key_lt(#[trigger] pairs[i].0, #[trigger] pairs[j].0)
                &&& forall|key: Seq<u8>, value: Seq<u8>| #[trigger]
                    pairs.contains((key, value)) <==> within(key, lo, hi) && got(w, key) == Ok::<
                        Option<Seq<u8>>,
                        ErrorModel,
                    >(Some(value))
            },
            Err(e) => exists|key: Seq<u8>|
                within(key, lo, hi) && #[trigger] got(w, key) == Err::<Option<Seq<u8>>, ErrorModel>(
                    e,
                ),
        },
{
    lemma_tables_hold(w);
    let s = w.store;
    let m = merge_start(s.tables, lo, hi);
    lemma_run_pairs(w.files, s, m);
    law_scan_gives_every_value_in_order(w.files, s, w.contents, lo, hi);
    let items = run_scan(w.files, s, scan_step(s, m))->Ok_0;
    match scanned(w, lo, hi) {
        Ok(pairs) => {
            assert forall|i: int, j: int| 0 <= i < j < pairs.len() implies key_lt(
                #[trigger] pairs[i].0,
                #[trigger] pairs[j].0,
            ) by {
                assert(key_lt(items[i].0, items[j].0));
            }
            assert forall|key: Seq<u8>, value: Seq<u8>| #[trigger] pairs.contains((key, value))
                <==> within(key, lo, hi) && got(w, key) == Ok::<Option<Seq<u8>>, ErrorModel>(
                Some(value),
            ) by {
                let item = (key, ValueModel::Bytes(value));
                law_get_gives_the_bytes_themselves(w, key);
                assert(items.contains((key, ValueModel::Bytes(value))) <==> within(key, lo, hi)
                    && value_at(w, key) == Some(ValueModel::Bytes(value)));
                if pairs.contains((key, value)) {
                    let i = choose|i: int| 0 <= i < pairs.len() && pairs[i] == (key, value);
                    assert(items[i].1 is Bytes);
                    assert(items[i] == item);
                    assert(items.contains(item));
                }
                if items.contains(item) {
                    let i = choose|i: int| 0 <= i < items.len() && items[i] == item;
                    assert(pairs[i] == (key, value));
                    assert(pairs.contains((key, value)));
                }
            }
        },
        Err(e) => {
            let i = choose|i: int| 0 <= i < items.len() && !((#[trigger] items[i]).1 is Bytes);
            let (key, v) = items[i];
            assert(items.contains((key, v)));
            assert(within(key, lo, hi) && value_at(w, key) == Some(v));
            law_get_gives_the_bytes_themselves(w, key);
            assert(got(w, key) == Err::<Option<Seq<u8>>, ErrorModel>(e));
        },
    }
}

/// A range holds a key with its bytes exactly if the key does not come before the start, comes
/// before the end, and is got with those bytes; a scan of everything holds every key that is got; a
/// prefix scan holds those that have the bytes of the prefix in front.
pub proof fn law_range_prefix_and_scan_hold_what_they_should(
    w: World,
    start: Seq<u8>,
    end: Seq<u8>,
    prefix: Seq<u8>,
    key: Seq<u8>,
    value: Seq<u8>,
)
    requires
        sound(w),
    ensures
        ({
            let there = got(w, key) == Ok::<Option<Seq<u8>>, ErrorModel>(Some(value));
            &&& scanned(
                w,
                BoundModel::Included(start),
                BoundModel::Excluded(end),
            ) matches Ok(pairs) ==> (pairs.contains((key, value)) <==> there && (start == key
                || key_lt(start, key)) && key_lt(key, end))
            &&& scanned(w, BoundModel::Unbounded, BoundModel::Unbounded) matches Ok(pairs) ==> (
            pairs.contains((key, value)) <==> there)
            &&& scanned(w, BoundModel::Included(prefix), prefix_bound(prefix)) matches Ok(pairs)
                ==> (pairs.contains((key, value)) <==> there && prefix.len() <= key.len()
                && forall|i: int| 0 <= i < prefix.len() ==> key[i] == prefix[i])
        }),
{
    law_scan_gives_what_get_gives(w, BoundModel::Included(start), BoundModel::Excluded(end));
    law_scan_gives_what_get_gives(w, BoundModel::Unbounded, BoundModel::Unbounded);
    law_scan_gives_what_get_gives(w, BoundModel::Included(prefix), prefix_bound(prefix));
    law_bounds_are_meant_in_key_order(key, start, end);
    law_prefix_bounds_are_exact(key, prefix);
    law_prefix_is_byte_by_byte(key, prefix);
    if let Ok(pairs) = scanned(w, BoundModel::Included(start), BoundModel::Excluded(end)) {
        assert(pairs.contains((key, value)) <==> within(
            key,
            BoundModel::Included(start),
            BoundModel::Excluded(end),
        ) && got(w, key) == Ok::<Option<Seq<u8>>, ErrorModel>(Some(value)));
    }
    if let Ok(pairs) = scanned(w, BoundModel::Unbounded, BoundModel::Unbounded) {
        assert(pairs.contains((key, value)) <==> within(
            key,
            BoundModel::Unbounded,
            BoundModel::Unbounded,
        ) && got(w, key) == Ok::<Option<Seq<u8>>, ErrorModel>(Some(value)));
    }
    if let Ok(pairs) = scanned(w, BoundModel::Included(prefix), prefix_bound(prefix)) {
        assert(pairs.contains((key, value)) <==> within(
            key,
            BoundModel::Included(prefix),
            prefix_bound(prefix),
        ) && got(w, key) == Ok::<Option<Seq<u8>>, ErrorModel>(Some(value)));
    }
}

/// A scan whose lookups all succeed succeeds.
pub proof fn law_scan_fails_only_where_a_get_fails(w: World, lo: BoundModel, hi: BoundModel)
    requires
        sound(w),
        forall|key: Seq<u8>| (#[trigger] got(w, key)) is Ok,
    ensures
        scanned(w, lo, hi) is Ok,
{
    law_scan_gives_what_get_gives(w, lo, hi);
}

// ---- transactions ----

/// What looking a key up in a transaction comes to.
pub open spec fn got_in(w: World, pending: Seq<Pair>, key: Seq<u8>) -> Result<
    Option<Seq<u8>>,
    ErrorModel,
> {
    run_get(w.files, w.store, key, lookup_pending(pending, w.store, key))
}

/// A transaction that has written nothing reads the table. After a put it reads the bytes that were
/// put, after a delete nothing; every other key reads as before.
pub proof fn law_transaction_reads_what_it_wrote(
    w: World,
    pending: Seq<Pair>,
    key: Seq<u8>,
    value: Seq<u8>,
    other: Seq<u8>,
)
    requires
        sorted(pending),
    ensures
        got_in(w, Seq::empty(), key) == got(w, key),
        ({
            let put = put_pair(pending, (key, EntryModel::Value(ValueModel::Bytes(value))));
            let deleted = put_pair(pending, (key, EntryModel::Tombstone));
            &&& sorted(put)
            &&& sorted(deleted)
            &&& got_in(w, put, key) == Ok::<Option<Seq<u8>>, ErrorModel>(Some(value))
            &&& got_in(w, deleted, key) == Ok::<Option<Seq<u8>>, ErrorModel>(None)
            &&& other != key ==> got_in(w, put, other) == got_in(w, pending, other) && got_in(
                w,
                deleted,
                other,
            ) == got_in(w, pending, other)
        }),
{
    assert(as_map(Seq::<Pair>::empty()) == Map::<Seq<u8>, EntryModel>::empty());
    lemma_put_pair(pending, (key, EntryModel::Value(ValueModel::Bytes(value))));
    lemma_put_pair(pending, (key, EntryModel::Tombstone));
}

/// After its commit, the table gives every key what the transaction gave before it.
pub proof fn law_commit_makes_the_transaction_visible(
    w: World,
    pending: Seq<Pair>,
    key: Seq<u8>,
    removable: nat,
)
    requires
        sound(w),
        possible(w, Event::Commit { writes: pending, removable }),
    ensures
        after_commit(w, pending, removable) matches Some(after) && sound(after) && got(after, key)
            == got_in(w, pending, key),
{
    lemma_commit_then(w, pending, removable);
    let after = after_commit(w, pending, removable)->Some_0;
    assert(value_at(after, key) == (if as_map(pending).contains_key(key) {
        entry_value(as_map(pending)[key])
    } else {
        value_at(w, key)
    }));
    law_get_gives_the_bytes_themselves(after, key);
    law_get_gives_the_bytes_themselves(w, key);
}

// ---- values of every kind ----

/// What looking a key up in the store comes to, for values of every kind.
pub open spec fn looked_up(w: World, key: Seq<u8>) -> Result<Option<ValueModel>, Seq<char>> {
    run_lookup(w.files, w.store.tables, key, lookup_start(w.store, key))
}

/// A value of whatever kind that is stored is looked up again, the same; a deleted key has none;
/// every other key is looked up as before.
pub proof fn law_stored_value_is_looked_up_again(
    w: World,
    key: Seq<u8>,
    entry: EntryModel,
    other: Seq<u8>,
    removable: nat,
)
    requires
        sound(w),
        possible(w, Event::Commit { writes: seq![(key, entry)], removable }),
    ensures
        after_commit(w, seq![(key, entry)], removable) matches Some(after) && sound(after)
            && looked_up(after, key) == Ok::<Option<ValueModel>, Seq<char>>(
            match entry {
                EntryModel::Value(v) => Some(v),
                EntryModel::Tombstone => None,
            },
        ) && (other != key ==> looked_up(after, other) == looked_up(w, other)),
{
    lemma_single(key, entry);
    lemma_commit_then(w, seq![(key, entry)], removable);
    let after = after_commit(w, seq![(key, entry)], removable)->Some_0;
    assert(value_at(after, key) == entry_value(entry));
    assert(other != key ==> value_at(after, other) == value_at(w, other));
    lemma_tables_hold(w);
    lemma_tables_hold(after);
    law_lookup_finds_the_newest(after.files, after.store, after.contents, key);
    law_lookup_finds_the_newest(after.files, after.store, after.contents, other);
    law_lookup_finds_the_newest(w.files, w.store, w.contents, other);
}

/// A scan of the store gives each key within the bounds that a lookup gives a value for, with that
/// value, and nothing else, in strictly ascending order of the keys.
pub proof fn law_store_scan_gives_what_lookups_give(w: World, lo: BoundModel, hi: BoundModel)
    requires
        sound(w),
    ensures
        run_scan(
            w.files,
            w.store,
            scan_step(w.store, merge_start(w.store.tables, lo, hi)),
        ) matches Ok(items) && (forall|i: int, j: int|
            0 <= i < j < items.len() ==> key_lt(#[trigger] items[i].0, #[trigger] items[j].0)) && (
        forall|key: Seq<u8>, v: ValueModel| #[trigger]
            items.contains((key, v)) <==> within(key, lo, hi) && looked_up(w, key) == Ok::<
                Option<ValueModel>,
                Seq<char>,
            >(Some(v))),
{
    lemma_tables_hold(w);
    law_scan_gives_every_value_in_order(w.files, w.store, w.contents, lo, hi);
    let items = run_scan(
        w.files,
        w.store,
        scan_step(w.store, merge_start(w.store.tables, lo, hi)),
    )->Ok_0;
    assert forall|key: Seq<u8>, v: ValueModel| #[trigger] items.contains((key, v)) <==> within(
        key,
        lo,
        hi,
    ) && looked_up(w, key) == Ok::<Option<ValueModel>, Seq<char>>(Some(v)) by {
        law_lookup_finds_the_newest(w.files, w.store, w.contents, key);
        assert(items.contains((key, v)) <==> within(key, lo, hi) && value_of(
            w.store.memtable,
            w.contents,
            key,
        ) == Some(v));
    }
}

// ---- flush, compact, reopen ----

/// Flushing, compacting, setting the budget, opening the table anew and failing to commit change
/// nothing that a caller of the interface sees.
pub proof fn law_upkeep_is_not_seen(w: World, e: Event, key: Seq<u8>)
    requires
        sound(w),
        possible(w, e),
        !(e is Commit),
    ensures
        happen(w, e) matches Some(after) && sound(after) && got(after, key) == got(w, key)
            && contained(after, key) == contained(w, key) && looked_up(after, key) == looked_up(
            w,
            key,
        ),
{
    law_event_changes_only_what_it_writes(w, e);
    let after = happen(w, e)->Some_0;
    assert(written(e, key) is None);
    assert(value_at(after, key) == value_at(w, key));
    law_get_gives_the_bytes_themselves(after, key);
    law_get_gives_the_bytes_themselves(w, key);
    law_contains_tells_whether_there_is_a_value(after, key);
    law_contains_tells_whether_there_is_a_value(w, key);
    lemma_tables_hold(w);
    lemma_tables_hold(after);
    law_lookup_finds_the_newest(after.files, after.store, after.contents, key);
    law_lookup_finds_the_newest(w.files, w.store, w.contents, key);
}

} // verus!
