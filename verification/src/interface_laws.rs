//! Laws of the interface over byte strings: what comes back of the bytes that went in.

use vstd::prelude::*;
use crate::bounds::{has_prefix, law_prefix_bounds_are_exact, prefix_bound, within, BoundModel};
use crate::entry_map::{as_map, lemma_put_pair, put_pair, sorted};
use crate::errors::{public_error, AppErrorModel, ErrorModel};
use crate::format::{block_to_read, blocks_of, file_bytes, Pair};
use crate::model::{
    lookup_after, lookup_from, lookup_start, merge_start, put_all, scan_step, LookupModel,
    StoreModel,
};
use crate::read_laws::{
    all_hold, ascending, holds, items_within, layered, law_scan_gives_every_value_in_order,
    law_scan_is_the_full_scan_filtered, lemma_layered_at, lemma_lookup_advances, lemma_put_all,
    lookup_rank, read_block, run_scan, value_in, value_of,
};
use crate::sstable::block_ref;
use crate::table::{
    all_bytes, as_bytes, batch_after, batch_step, byte_writes, get_after_block, get_progress,
    BatchModel, ProgressModel,
};
use crate::table_laws::{block_of_file, law_get_finds_what_was_written, lemma_index_len, lookup};
use crate::value::{EntryModel, ValueModel};
use crate::write_laws::{compacted, lemma_compacted};

verus! {

// ---- one key ----

/// What looking a key up comes to when every block that is asked for is read from `files`.
pub open spec fn run_get(
    files: Map<Seq<char>, Seq<u8>>,
    s: StoreModel,
    key: Seq<u8>,
    l: LookupModel,
) -> Result<Option<Seq<u8>>, ErrorModel>
    decreases lookup_rank(s.tables, l),
{
    match get_progress(l) {
        Err(e) => Err(e),
        Ok(ProgressModel::Done(found)) => Ok(found),
        Ok(ProgressModel::Read { table, path, block }) => if 0 <= table < s.tables.len() {
            match get_after_block(
                s,
                key,
                table,
                block.block as int,
                read_block(files[path], block),
            ) {
                Err(e) => Err(e),
                Ok(next) => {
                    proof {
                        lemma_lookup_advances(s.tables, table + 1, key);
                    }
                    run_get(files, s, key, next)
                },
            }
        } else {
            Ok(None)
        },
    }
}

/// The block that a lookup reads in the `i`-th table gives the entry that the table holds.
proof fn lemma_block_gives_entry(
    files: Map<Seq<char>, Seq<u8>>,
    s: StoreModel,
    contents: Seq<Seq<Pair>>,
    key: Seq<u8>,
    i: int,
)
    requires
        all_hold(files, s.tables, contents),
        0 <= i < s.tables.len(),
    ensures
        match block_to_read(s.tables[i], key) {
            None => lookup(contents[i], key) is None,
            Some(b) => {
                let block = block_ref(s.tables[i], b);
                get_after_block(
                    s,
                    key,
                    i,
                    block.block as int,
                    read_block(files[s.tables[i].path], block),
                ) == Ok::<LookupModel, ErrorModel>(
                    lookup_after(s.tables, i, key, lookup(contents[i], key)),
                )
            },
        },
{
    let t = s.tables[i];
    let pairs = contents[i];
    assert(holds(files, s.tables[i], contents[i]));
    law_get_finds_what_was_written(t.path, pairs, key);
    lemma_index_len(blocks_of(pairs));
    if let Some(b) = block_to_read(t, key) {
        assert(b <= u32::MAX);
        assert(read_block(files[t.path], block_ref(t, b)) == block_of_file(t, file_bytes(pairs), b));
    }
}

proof fn lemma_get_in_tables(
    files: Map<Seq<char>, Seq<u8>>,
    s: StoreModel,
    contents: Seq<Seq<Pair>>,
    key: Seq<u8>,
    i: int,
)
    requires
        all_hold(files, s.tables, contents),
        0 <= i <= s.tables.len(),
    ensures
        run_get(files, s, key, lookup_from(s.tables, i, key)) == as_bytes(
            value_in(layered(contents.skip(i)), key),
        ),
    decreases s.tables.len() - i,
{
    if i == s.tables.len() {
        assert(contents.skip(i) =~= Seq::<Seq<Pair>>::empty());
    } else {
        lemma_block_gives_entry(files, s, contents, key, i);
        lemma_layered_at(contents, i, key);
        lemma_get_in_tables(files, s, contents, key, i + 1);
        if let Some(b) = block_to_read(s.tables[i], key) {
            let next = lookup_after(s.tables, i, key, lookup(contents[i], key));
            assert(run_get(files, s, key, next) == as_bytes(
                value_in(layered(contents.skip(i)), key),
            ));
        }
    }
}

/// Looking a key up gives the bytes of its newest value, or none if the key is absent or deleted.
/// Only a value that was not stored as bytes is an error.
pub proof fn law_get_gives_the_newest_bytes(
    files: Map<Seq<char>, Seq<u8>>,
    s: StoreModel,
    contents: Seq<Seq<Pair>>,
    key: Seq<u8>,
)
    requires
        sorted(s.memtable),
        all_hold(files, s.tables, contents),
    ensures
        run_get(files, s, key, lookup_start(s, key)) == as_bytes(
            value_of(s.memtable, contents, key),
        ),
{
    lemma_get_in_tables(files, s, contents, key, 0);
    assert(contents.skip(0) =~= contents);
}

// ---- many keys ----

/// How many keys of a lookup of many keys are still to be found.
pub open spec fn keys_left(m: Result<BatchModel, ErrorModel>) -> int {
    match m {
        Ok(BatchModel::Read { table, path, block, keys, found }) => keys.len() - found.len(),
        _ => 0,
    }
}

/// How many tables a lookup of many keys may still read for its present key.
pub open spec fn tables_left(s: StoreModel, m: Result<BatchModel, ErrorModel>) -> int {
    match m {
        Ok(BatchModel::Read { table, path, block, keys, found }) => s.tables.len() - table,
        _ => 0,
    }
}

/// A lookup of many keys goes on with the keys that are left.
pub proof fn lemma_batch_advances(s: StoreModel, keys: Seq<Seq<u8>>, found: Seq<Option<Seq<u8>>>)
    ensures
        batch_step(s, keys, found) matches Ok(BatchModel::Read {
            table,
            path,
            block,
            keys: k,
            found: f,
        }) ==> k == keys && found.len() <= f.len() < keys.len() && 0 <= table < s.tables.len(),
    decreases keys.len() - found.len(),
{
    if found.len() < keys.len() {
        let key = keys[found.len() as int];
        lemma_lookup_advances(s.tables, 0, key);
        if let Ok(ProgressModel::Done(b)) = get_progress(lookup_start(s, key)) {
            lemma_batch_advances(s, keys, found.push(b));
        }
    }
}

/// What a lookup of many keys comes to when every block that is asked for is read from `files`.
pub open spec fn run_batch(
    files: Map<Seq<char>, Seq<u8>>,
    s: StoreModel,
    m: Result<BatchModel, ErrorModel>,
) -> Result<Seq<Option<Seq<u8>>>, ErrorModel>
    decreases keys_left(m), tables_left(s, m),
{
    match m {
        Err(e) => Err(e),
        Ok(BatchModel::Done(found)) => Ok(found),
        Ok(BatchModel::Read { table, path, block, keys, found }) => if 0 <= table < s.tables.len()
            && found.len() < keys.len() {
            match get_after_block(
                s,
                keys[found.len() as int],
                table,
                block.block as int,
                read_block(files[path], block),
            ) {
                Err(e) => Err(e),
                Ok(next) => {
                    proof {
                        lemma_lookup_advances(s.tables, table + 1, keys[found.len() as int]);
                        if let Ok(ProgressModel::Done(b)) = get_progress(next) {
                            lemma_batch_advances(s, keys, found.push(b));
                        }
                    }
                    run_batch(files, s, batch_after(s, keys, found, next))
                },
            }
        } else {
            Ok(found)
        },
    }
}

proof fn lemma_batch_in_tables(
    files: Map<Seq<char>, Seq<u8>>,
    s: StoreModel,
    contents: Seq<Seq<Pair>>,
    keys: Seq<Seq<u8>>,
    found: Seq<Option<Seq<u8>>>,
    i: int,
)
    requires
        all_hold(files, s.tables, contents),
        found.len() < keys.len(),
        0 <= i <= s.tables.len(),
    ensures
        ({
            let key = keys[found.len() as int];
            run_batch(files, s, batch_after(s, keys, found, lookup_from(s.tables, i, key))) == (
            match as_bytes(value_in(layered(contents.skip(i)), key)) {
                Err(e) => Err(e),
                Ok(b) => run_batch(files, s, batch_step(s, keys, found.push(b))),
            })
        }),
    decreases s.tables.len() - i,
{
    let key = keys[found.len() as int];
    if i == s.tables.len() {
        assert(contents.skip(i) =~= Seq::<Seq<Pair>>::empty());
    } else {
        lemma_block_gives_entry(files, s, contents, key, i);
        lemma_layered_at(contents, i, key);
        lemma_batch_in_tables(files, s, contents, keys, found, i + 1);
        if let Some(b) = block_to_read(s.tables[i], key) {
            let next = lookup_after(s.tables, i, key, lookup(contents[i], key));
            assert(run_batch(files, s, batch_after(s, keys, found, lookup_from(s.tables, i, key)))
                == run_batch(files, s, batch_after(s, keys, found, next)));
        }
    }
}

proof fn lemma_batch(
    files: Map<Seq<char>, Seq<u8>>,
    s: StoreModel,
    contents: Seq<Seq<Pair>>,
    keys: Seq<Seq<u8>>,
    found: Seq<Option<Seq<u8>>>,
)
    requires
        sorted(s.memtable),
        all_hold(files, s.tables, contents),
        found.len() <= keys.len(),
        forall|i: int|
            0 <= i < found.len() ==> as_bytes(value_of(s.memtable, contents, keys[i])) == Ok::<
                Option<Seq<u8>>,
                ErrorModel,
            >(#[trigger] found[i]),
    ensures
        match run_batch(files, s, batch_step(s, keys, found)) {
            Ok(all) => all.len() == keys.len() && forall|i: int|
                0 <= i < keys.len() ==> as_bytes(value_of(s.memtable, contents, keys[i])) == Ok::<
                    Option<Seq<u8>>,
                    ErrorModel,
                >(#[trigger] all[i]),
            Err(e) => e == ErrorModel::UnexpectedValue && exists|i: int|
                0 <= i < keys.len() && as_bytes(
                    value_of(s.memtable, contents, #[trigger] keys[i]),
                ) is Err,
        },
    decreases keys.len() - found.len(),
{
    if found.len() < keys.len() {
        let key = keys[found.len() as int];
        let l = lookup_start(s, key);
        assert(batch_step(s, keys, found) == batch_after(s, keys, found, l));
        lemma_batch_in_tables(files, s, contents, keys, found, 0);
        assert(contents.skip(0) =~= contents);
        let here = as_bytes(value_of(s.memtable, contents, key));
        assert(run_batch(files, s, batch_step(s, keys, found)) == (match here {
            Err(e) => Err(e),
            Ok(b) => run_batch(files, s, batch_step(s, keys, found.push(b))),
        }));
        if let Ok(b) = here {
            lemma_batch(files, s, contents, keys, found.push(b));
        }
    }
}

/// Looking many keys up gives the bytes of each, or none, in the order of the keys: what looking
/// each of them up gives. Only a value that was not stored as bytes is an error.
pub proof fn law_batch_gives_each_key_its_bytes(
    files: Map<Seq<char>, Seq<u8>>,
    s: StoreModel,
    contents: Seq<Seq<Pair>>,
    keys: Seq<Seq<u8>>,
)
    requires
        sorted(s.memtable),
        all_hold(files, s.tables, contents),
    ensures
        match run_batch(files, s, batch_step(s, keys, Seq::empty())) {
            Ok(all) => all.len() == keys.len() && forall|i: int|
                0 <= i < keys.len() ==> as_bytes(value_of(s.memtable, contents, keys[i])) == Ok::<
                    Option<Seq<u8>>,
                    ErrorModel,
                >(#[trigger] all[i]),
            Err(e) => e == ErrorModel::UnexpectedValue && exists|i: int|
                0 <= i < keys.len() && as_bytes(
                    value_of(s.memtable, contents, #[trigger] keys[i]),
                ) is Err,
        },
{
    lemma_batch(files, s, contents, keys, Seq::empty());
}

// ---- bytes only ----

/// Whether all values among some pairs are bytes.
pub open spec fn only_bytes(s: Seq<Pair>) -> bool {
    forall|key: Seq<u8>|
        as_map(s).contains_key(key) ==> (#[trigger] as_map(s)[key] matches EntryModel::Value(v)
            ==> v is Bytes)
}

proof fn lemma_layers_only_bytes(contents: Seq<Seq<Pair>>, key: Seq<u8>)
    requires
        forall|i: int| 0 <= i < contents.len() ==> only_bytes(#[trigger] contents[i]),
        layered(contents).contains_key(key),
    ensures
        layered(contents)[key] matches EntryModel::Value(v) ==> v is Bytes,
    decreases contents.len(),
{
    assert(only_bytes(contents[0]));
    let rest = contents.skip(1);
    if as_map(contents[0]).contains_key(key) {
        assert(as_map(contents[0])[key] == layered(contents)[key]);
    } else {
        assert forall|i: int| 0 <= i < rest.len() implies only_bytes(#[trigger] rest[i]) by {
            assert(only_bytes(contents[i + 1]));
        }
        lemma_layers_only_bytes(rest, key);
    }
}

/// Where only bytes have been written, every key has bytes or nothing: no read reports a value of
/// another kind.
pub proof fn law_bytes_are_all_that_is_read(
    memtable: Seq<Pair>,
    contents: Seq<Seq<Pair>>,
    key: Seq<u8>,
)
    requires
        only_bytes(memtable),
        forall|i: int| 0 <= i < contents.len() ==> only_bytes(#[trigger] contents[i]),
    ensures
        as_bytes(value_of(memtable, contents, key)) is Ok,
{
    if as_map(memtable).contains_key(key) {
        assert(as_map(memtable)[key] is Tombstone || as_map(memtable)[key]->Value_0 is Bytes);
    } else if layered(contents).contains_key(key) {
        lemma_layers_only_bytes(contents, key);
    }
}

/// Committing bytes and deletes, and compacting, leave bytes only. A flush moves the memtable as
/// it is.
pub proof fn law_bytes_stay_bytes(
    files: Map<Seq<char>, Seq<u8>>,
    s: StoreModel,
    contents: Seq<Seq<Pair>>,
    writes: Seq<Pair>,
)
    requires
        sorted(s.memtable),
        all_hold(files, s.tables, contents),
        only_bytes(s.memtable),
        only_bytes(writes),
        forall|i: int| 0 <= i < contents.len() ==> only_bytes(#[trigger] contents[i]),
    ensures
        only_bytes(put_all(s.memtable, writes)),
        only_bytes(compacted(contents)),
{
    lemma_put_all(s.memtable, writes);
    let after = put_all(s.memtable, writes);
    assert forall|key: Seq<u8>| as_map(after).contains_key(key) implies (#[trigger] as_map(
        after,
    )[key] matches EntryModel::Value(v) ==> v is Bytes) by {
        if as_map(writes).contains_key(key) {
            assert(as_map(after)[key] == as_map(writes)[key]);
        } else {
            assert(as_map(after)[key] == as_map(s.memtable)[key]);
        }
    }
    let kept = compacted(contents);
    assert forall|key: Seq<u8>| as_map(kept).contains_key(key) implies (#[trigger] as_map(
        kept,
    )[key] matches EntryModel::Value(v) ==> v is Bytes) by {
        lemma_compacted(files, s.tables, contents, key);
        lemma_layers_only_bytes(contents, key);
    }
}

/// What the interface writes is bytes and deletes: in a single write, in a transaction, and in a
/// batch.
pub proof fn law_interface_writes_only_bytes(
    pending: Seq<Pair>,
    key: Seq<u8>,
    value: Seq<u8>,
    entries: Seq<(&[u8], &[u8])>,
)
    requires
        sorted(pending),
        only_bytes(pending),
    ensures
        only_bytes(Seq::empty()),
        only_bytes(put_pair(pending, (key, EntryModel::Value(ValueModel::Bytes(value))))),
        only_bytes(put_pair(pending, (key, EntryModel::Tombstone))),
        only_bytes(put_all(Seq::empty(), byte_writes(entries))),
    decreases entries.len(),
{
    let none = Seq::<Pair>::empty();
    assert(as_map(none) == Map::<Seq<u8>, EntryModel>::empty());
    lemma_put_pair(pending, (key, EntryModel::Value(ValueModel::Bytes(value))));
    lemma_put_pair(pending, (key, EntryModel::Tombstone));
    assert forall|k: Seq<u8>| k != key && as_map(pending).contains_key(k) implies (
    #[trigger] as_map(pending)[k] matches EntryModel::Value(v) ==> v is Bytes) by {}
    let writes = byte_writes(entries);
    if entries.len() > 0 {
        let before = entries.drop_last();
        law_interface_writes_only_bytes(none, key, value, before);
        assert(writes.drop_last() =~= byte_writes(before));
        lemma_put_all(none, byte_writes(before));
        lemma_put_pair(put_all(none, byte_writes(before)), writes.last());
        assert(only_bytes(put_all(none, byte_writes(before))));
    }
}

/// Of a table in which only bytes have been written, a scan gives the keys within its bounds that
/// have a value, each once, in ascending order, and with its newest bytes.
pub proof fn law_scan_gives_all_bytes_in_order(
    files: Map<Seq<char>, Seq<u8>>,
    s: StoreModel,
    contents: Seq<Seq<Pair>>,
    lo: BoundModel,
    hi: BoundModel,
)
    requires
        sorted(s.memtable),
        all_hold(files, s.tables, contents),
        only_bytes(s.memtable),
        forall|i: int| 0 <= i < contents.len() ==> only_bytes(#[trigger] contents[i]),
    ensures
        run_scan(files, s, scan_step(s, merge_start(s.tables, lo, hi))) matches Ok(items)
            && ascending(items) && (all_bytes(items) matches Ok(pairs) && pairs.len()
            == items.len() && (forall|i: int|
            0 <= i < pairs.len() ==> (#[trigger] pairs[i]).0 == items[i].0) && forall|
            key: Seq<u8>,
            value: Seq<u8>,
        |
            #[trigger] pairs.contains((key, value)) <==> within(key, lo, hi) && value_of(
                s.memtable,
                contents,
                key,
            ) == Some(ValueModel::Bytes(value))),
{
    law_scan_gives_every_value_in_order(files, s, contents, lo, hi);
    let items = run_scan(files, s, scan_step(s, merge_start(s.tables, lo, hi)))->Ok_0;
    assert forall|i: int| 0 <= i < items.len() implies (#[trigger] items[i]).1 is Bytes by {
        let (key, v) = items[i];
        assert(items.contains((key, v)));
        law_bytes_are_all_that_is_read(s.memtable, contents, key);
    }
    let pairs = all_bytes(items)->Ok_0;
    assert forall|key: Seq<u8>, value: Seq<u8>| #[trigger] pairs.contains((key, value)) <==> within(
        key,
        lo,
        hi,
    ) && value_of(s.memtable, contents, key) == Some(ValueModel::Bytes(value)) by {
        let item = (key, ValueModel::Bytes(value));
        if pairs.contains((key, value)) {
            let i = choose|i: int| 0 <= i < pairs.len() && pairs[i] == (key, value);
            assert(items[i] == item);
            assert(items.contains(item));
        }
        if items.contains(item) {
            let i = choose|i: int| 0 <= i < items.len() && items[i] == item;
            assert(pairs[i] == (key, value));
            assert(pairs.contains((key, value)));
        }
    }
}

/// Filtering items by their keys filters their bytes by their keys.
proof fn lemma_bytes_filtered(
    items: Seq<(Seq<u8>, ValueModel)>,
    lo: BoundModel,
    hi: BoundModel,
    keep: spec_fn(Seq<u8>) -> bool,
)
    requires
        forall|i: int| 0 <= i < items.len() ==> (#[trigger] items[i]).1 is Bytes,
        forall|key: Seq<u8>| #[trigger] keep(key) <==> within(key, lo, hi),
    ensures
        all_bytes(items) matches Ok(all) && all_bytes(items_within(items, lo, hi)) == Ok::<
            Seq<(Seq<u8>, Seq<u8>)>,
            ErrorModel,
        >(all.filter(|p: (Seq<u8>, Seq<u8>)| keep(p.0))),
    decreases items.len(),
{
    reveal(Seq::filter);
    let by_key = |p: (Seq<u8>, Seq<u8>)| keep(p.0);
    let all = all_bytes(items)->Ok_0;
    let kept = items_within(items, lo, hi);
    if items.len() == 0 {
        assert(all_bytes(kept)->Ok_0 =~= all.filter(by_key));
    } else {
        let before = items.drop_last();
        let last = items.last();
        let n = items.len() - 1;
        assert(items[n].1 is Bytes);
        assert forall|i: int| 0 <= i < before.len() implies (#[trigger] before[i]).1 is Bytes by {
            assert(items[i].1 is Bytes);
        }
        lemma_bytes_filtered(before, lo, hi, keep);
        let sub = items_within(before, lo, hi);
        let sub_bytes = all_bytes(sub)->Ok_0;
        assert(all.drop_last() =~= all_bytes(before)->Ok_0);
        assert(all.last() == (last.0, last.1->Bytes_0));
        assert(keep(last.0) <==> within(last.0, lo, hi));
        if within(last.0, lo, hi) {
            assert(kept == sub.push(last));
            assert forall|i: int| 0 <= i < kept.len() implies (#[trigger] kept[i]).1 is Bytes by {
                if i < sub.len() {
                    assert(sub[i].1 is Bytes);
                }
            }
            assert(all_bytes(kept)->Ok_0 =~= sub_bytes.push(all.last()));
            assert(all.filter(by_key) =~= sub_bytes.push(all.last()));
        } else {
            assert(kept == sub);
            assert(all.filter(by_key) =~= sub_bytes);
        }
    }
}

/// Of a table in which only bytes have been written, a scan within bounds is the scan of everything
/// filtered by the bounds, and a prefix scan is the scan of everything filtered by the prefix: the
/// same pairs in the same order.
pub proof fn law_scans_are_the_full_scan_filtered(
    files: Map<Seq<char>, Seq<u8>>,
    s: StoreModel,
    contents: Seq<Seq<Pair>>,
    lo: BoundModel,
    hi: BoundModel,
    prefix: Seq<u8>,
)
    requires
        sorted(s.memtable),
        all_hold(files, s.tables, contents),
        only_bytes(s.memtable),
        forall|i: int| 0 <= i < contents.len() ==> only_bytes(#[trigger] contents[i]),
    ensures
        run_table_scan(files, s, BoundModel::Unbounded, BoundModel::Unbounded) matches Ok(all)
            && run_table_scan(files, s, lo, hi) == Ok::<Seq<(Seq<u8>, Seq<u8>)>, ErrorModel>(
            all.filter(|p: (Seq<u8>, Seq<u8>)| within(p.0, lo, hi)),
        ) && run_table_scan(files, s, BoundModel::Included(prefix), prefix_bound(prefix)) == Ok::<
            Seq<(Seq<u8>, Seq<u8>)>,
            ErrorModel,
        >(all.filter(|p: (Seq<u8>, Seq<u8>)| has_prefix(p.0, prefix))),
{
    let none = BoundModel::Unbounded;
    let from = BoundModel::Included(prefix);
    let to = prefix_bound(prefix);
    law_scan_gives_all_bytes_in_order(files, s, contents, none, none);
    law_scan_is_the_full_scan_filtered(files, s, contents, lo, hi);
    law_scan_is_the_full_scan_filtered(files, s, contents, from, to);
    let items = run_scan(files, s, scan_step(s, merge_start(s.tables, none, none)))->Ok_0;
    let bounded = |key: Seq<u8>| within(key, lo, hi);
    let prefixed = |key: Seq<u8>| has_prefix(key, prefix);
    assert forall|key: Seq<u8>| #[trigger] prefixed(key) <==> within(key, from, to) by {
        law_prefix_bounds_are_exact(key, prefix);
    }
    lemma_bytes_filtered(items, lo, hi, bounded);
    lemma_bytes_filtered(items, from, to, prefixed);
    let all = all_bytes(items)->Ok_0;
    assert(all.filter(|p: (Seq<u8>, Seq<u8>)| bounded(p.0)) =~= all.filter(
        |p: (Seq<u8>, Seq<u8>)| within(p.0, lo, hi),
    )) by {
        assert((|p: (Seq<u8>, Seq<u8>)| bounded(p.0)) =~= (|p: (Seq<u8>, Seq<u8>)|
            within(p.0, lo, hi)));
    }
    assert(all.filter(|p: (Seq<u8>, Seq<u8>)| prefixed(p.0)) =~= all.filter(
        |p: (Seq<u8>, Seq<u8>)| has_prefix(p.0, prefix),
    )) by {
        assert((|p: (Seq<u8>, Seq<u8>)| prefixed(p.0)) =~= (|p: (Seq<u8>, Seq<u8>)|
            has_prefix(p.0, prefix)));
    }
}

/// What a scan of a table comes to when every block that is asked for is read from `files`.
pub open spec fn run_table_scan(
    files: Map<Seq<char>, Seq<u8>>,
    s: StoreModel,
    lo: BoundModel,
    hi: BoundModel,
) -> Result<Seq<(Seq<u8>, Seq<u8>)>, ErrorModel> {
    match run_scan(files, s, scan_step(s, merge_start(s.tables, lo, hi))) {
        Ok(items) => all_bytes(items),
        Err(text) => Err(public_error(AppErrorModel::DecodeError(text))),
    }
}

} // verus!
