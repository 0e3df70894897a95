//! Interactive, atomic units of work against one table.

use vstd::prelude::*;
use crate::entry_map::{as_map, put_pair, sorted, EntryMap};
use crate::format::Pair;
use crate::model::{
    entry_value, log_step, lookup_start, CommitModel, LookupModel, StepModel, StoreModel,
};
use crate::sstable::probe_safe;
use crate::store::{Lookup, Step, Store};
use crate::value::{Entry, EntryModel, Value};

verus! {

/// A unit of work: its writes are held in memory until it is committed, and then reach the log
/// with a single commit. Dropping it discards them.
#[derive(Debug)]
pub struct Transaction {
    // A deletion marker stands for a delete. A later write to a key replaces an earlier one.
    pending: EntryMap,
}

/// A lookup in a transaction: its own writes first, then the committed state.
pub open spec fn lookup_pending(pending: Seq<Pair>, s: StoreModel, key: Seq<u8>) -> LookupModel {
    if as_map(pending).contains_key(key) {
        LookupModel::Found(entry_value(as_map(pending)[key]))
    } else {
        lookup_start(s, key)
    }
}

impl Store {
    /// Begins a transaction.
    pub fn begin_transaction(&self) -> (r: Transaction)
        ensures
            r.wf(),
            r.pending() == Seq::<Pair>::empty(),
    {
        Transaction { pending: EntryMap::new() }
    }
}

impl Transaction {
    /// The writes of the transaction, in ascending key order.
    pub closed spec fn pending(&self) -> Seq<Pair> {
        self.pending.pairs()
    }

    /// The writes are in order.
    pub open spec fn wf(&self) -> bool {
        sorted(self.pending())
    }

    /// Holds a write, instead of any earlier one to the same key.
    pub fn set_value(&mut self, key: Vec<u8>, value: Value)
        requires
            old(self).wf(),
        ensures
            final(self).wf(),
            final(self).pending() == put_pair(
                old(self).pending(),
                (key@, EntryModel::Value(value@)),
            ),
    {
        self.pending.insert(key, Entry::Value(value));
    }

    /// Holds a delete, instead of any earlier write to the same key. It is not an error to delete
    /// a key that does not exist.
    pub fn delete_value(&mut self, key: Vec<u8>)
        requires
            old(self).wf(),
        ensures
            final(self).wf(),
            final(self).pending() == put_pair(old(self).pending(), (key@, EntryModel::Tombstone)),
    {
        self.pending.insert(key, Entry::Tombstone);
    }

    /// Begins to look a key up: a key that was written or deleted in the transaction has its held
    /// state, any other its committed one.
    pub fn get_value(&self, store: &Store, key: &[u8]) -> (r: Lookup)
        requires
            self.wf(),
            store.wf(),
            forall|i: int|
                0 <= i < store@.tables.len() ==> probe_safe(#[trigger] store@.tables[i], key@),
        ensures
            r@ == lookup_pending(self.pending(), store@, key@),
            r matches Lookup::Read { table, path, block } ==> table < store@.tables.len()
                && block.block < store@.tables[table as int].index.len(),
    {
        match self.pending.get(key) {
            Some(Entry::Value(v)) => Lookup::Found(Some(v.clone())),
            Some(Entry::Tombstone) => Lookup::Found(None),
            None => store.get_value(key),
        }
    }

    /// Begins to commit all writes together: the first step. Without any write there is nothing
    /// to do.
    pub fn commit(self, store: &mut Store) -> (r: Step)
        requires
            old(store).wf(),
            self.pending().len() > 0 ==> old(store)@.sequence < u64::MAX,
        ensures
            final(store).wf(),
            r.ready(final(store)@.tables),
            (final(store)@, r@) == (if self.pending().len() == 0 {
                (old(store)@, StepModel::Done)
            } else {
                log_step(old(store)@, CommitModel { writes: self.pending(), logged: 0, bytes: 0 })
            }),
    {
        if self.pending.is_empty() {
            return Step::Done;
        }
        store.commit_writes(self.pending)
    }

    /// Discards all writes. Nothing is written anywhere.
    pub fn rollback(self) {
    }

    /// Whether the transaction holds no write, so that its commit has nothing to do.
    pub fn is_empty(&self) -> (r: bool)
        ensures
            r == (self.pending().len() == 0),
    {
        self.pending.is_empty()
    }
}

} // verus!
