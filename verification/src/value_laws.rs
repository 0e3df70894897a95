//! Laws of the key-value interface: what a write does to the value of each key.

use vstd::prelude::*;
use crate::entry_map::{as_map, lemma_put_pair, put_pair, sorted};
use crate::format::Pair;
use crate::model::{entry_value, put_all, StoreModel};
use crate::read_laws::{all_hold, law_lookup_finds_the_newest, lemma_put_all, run_lookup, value_of};
use crate::transaction::lookup_pending;
use crate::value::{EntryModel, ValueModel};

verus! {

/// A commit gives each key that it writes its new value, and leaves every other key alone.
pub proof fn law_commit_changes_exactly_its_keys(
    memtable: Seq<Pair>,
    contents: Seq<Seq<Pair>>,
    writes: Seq<Pair>,
    key: Seq<u8>,
)
    requires
        sorted(memtable),
    ensures
        sorted(put_all(memtable, writes)),
        value_of(put_all(memtable, writes), contents, key) == (if as_map(writes).contains_key(
            key,
        ) {
            entry_value(as_map(writes)[key])
        } else {
            value_of(memtable, contents, key)
        }),
{
    lemma_put_all(memtable, writes);
}

/// A value that is stored is read back, and no other key is touched.
pub proof fn law_put_then_get(
    memtable: Seq<Pair>,
    contents: Seq<Seq<Pair>>,
    key: Seq<u8>,
    value: ValueModel,
    other: Seq<u8>,
)
    requires
        sorted(memtable),
    ensures
        ({
            let after = put_all(memtable, seq![(key, EntryModel::Value(value))]);
            &&& value_of(after, contents, key) == Some(value)
            &&& other != key ==> value_of(after, contents, other) == value_of(
                memtable,
                contents,
                other,
            )
        }),
{
    let writes = seq![(key, EntryModel::Value(value))];
    lemma_one_write(key, EntryModel::Value(value));
    law_commit_changes_exactly_its_keys(memtable, contents, writes, key);
    law_commit_changes_exactly_its_keys(memtable, contents, writes, other);
}

/// A key that is deleted has no value, whatever older tables hold, and no other key is touched.
/// Deleting it again changes nothing.
pub proof fn law_delete_then_get(
    memtable: Seq<Pair>,
    contents: Seq<Seq<Pair>>,
    key: Seq<u8>,
    other: Seq<u8>,
)
    requires
        sorted(memtable),
    ensures
        ({
            let writes = seq![(key, EntryModel::Tombstone)];
            let after = put_all(memtable, writes);
            &&& value_of(after, contents, key) is None
            &&& other != key ==> value_of(after, contents, other) == value_of(
                memtable,
                contents,
                other,
            )
            &&& value_of(put_all(after, writes), contents, other) == value_of(
                after,
                contents,
                other,
            )
        }),
{
    let writes = seq![(key, EntryModel::Tombstone)];
    lemma_one_write(key, EntryModel::Tombstone);
    law_commit_changes_exactly_its_keys(memtable, contents, writes, key);
    law_commit_changes_exactly_its_keys(memtable, contents, writes, other);
    law_commit_changes_exactly_its_keys(put_all(memtable, writes), contents, writes, other);
}

proof fn lemma_one_write(key: Seq<u8>, e: EntryModel)
    ensures
        as_map(seq![(key, e)]) == Map::<Seq<u8>, EntryModel>::empty().insert(key, e),
{
    let s = seq![(key, e)];
    assert(s.drop_last() =~= Seq::<Pair>::empty());
    assert(as_map(s.drop_last()) == Map::<Seq<u8>, EntryModel>::empty());
}

/// A transaction reads its own writes: before its commit, a read through it gives every key the
/// value that the key has once it is committed.
pub proof fn law_transaction_reads_its_own_writes(
    files: Map<Seq<char>, Seq<u8>>,
    s: StoreModel,
    contents: Seq<Seq<Pair>>,
    pending: Seq<Pair>,
    key: Seq<u8>,
)
    requires
        sorted(s.memtable),
        all_hold(files, s.tables, contents),
    ensures
        run_lookup(files, s.tables, key, lookup_pending(pending, s, key)) == Ok::<
            Option<ValueModel>,
            Seq<char>,
        >(value_of(put_all(s.memtable, pending), contents, key)),
{
    law_commit_changes_exactly_its_keys(s.memtable, contents, pending, key);
    law_lookup_finds_the_newest(files, s, contents, key);
}

/// Of several writes to one key in a transaction the last one counts.
pub proof fn law_last_write_to_a_key_counts(
    pending: Seq<Pair>,
    key: Seq<u8>,
    first: EntryModel,
    second: EntryModel,
)
    requires
        sorted(pending),
    ensures
        as_map(put_pair(put_pair(pending, (key, first)), (key, second))) == as_map(
            put_pair(pending, (key, second)),
        ),
{
    lemma_put_pair(pending, (key, first));
    lemma_put_pair(put_pair(pending, (key, first)), (key, second));
    lemma_put_pair(pending, (key, second));
    assert(as_map(pending).insert(key, first).insert(key, second) =~= as_map(pending).insert(
        key,
        second,
    ));
}

} // verus!
