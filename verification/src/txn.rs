//! The public interface to a transaction.

use vstd::prelude::*;
use crate::bytes::copy_bytes;
use crate::entry_map::put_pair;
use crate::errors::Error;
use crate::model::{log_step, CommitModel, StepModel};
use crate::store::Step;
use crate::table::{bytes_progress, can_look_up, get_progress, lookup_bytes, Progress, Table};
use crate::transaction::{lookup_pending, Transaction};
use crate::value::{EntryModel, Value, ValueModel};

verus! {

/// A transaction over a [`Table`]. Writes are held until it is committed; reads see them first,
/// then the committed table. Dropping it discards everything.
#[derive(Debug)]
pub struct Txn {
    pub inner: Transaction,
}

impl Txn {
    /// Holds a put.
    pub fn put(&mut self, key: &[u8], value: &[u8])
        requires
            old(self).inner.wf(),
        ensures
            final(self).inner.wf(),
            final(self).inner.pending() == put_pair(
                old(self).inner.pending(),
                (key@, EntryModel::Value(ValueModel::Bytes(value@))),
            ),
    {
        self.inner.set_value(copy_bytes(key), Value::Bytes(copy_bytes(value)));
    }

    /// Holds a delete.
    pub fn delete(&mut self, key: &[u8])
        requires
            old(self).inner.wf(),
        ensures
            final(self).inner.wf(),
            final(self).inner.pending() == put_pair(
                old(self).inner.pending(),
                (key@, EntryModel::Tombstone),
            ),
    {
        self.inner.delete_value(copy_bytes(key));
    }

    /// Begins to look a key up, in the held writes first. If a block is needed, the lookup goes on
    /// with [`Table::get_from`].
    pub fn get(&self, table: &Table, key: &[u8]) -> (r: Result<Progress<Option<Vec<u8>>>, Error>)
        requires
            self.inner.wf(),
            table.store.wf(),
            can_look_up(table.store@, key@),
        ensures
            match get_progress(lookup_pending(self.inner.pending(), table.store@, key@)) {
                Ok(p) => r matches Ok(x) && bytes_progress(x) == p,
                Err(e) => r matches Err(x) && x@ == e,
            },
            r matches Ok(Progress::Read { table: t, path, block }) ==> t
                < table.store@.tables.len() && block.block
                < table.store@.tables[t as int].index.len(),
    {
        lookup_bytes(self.inner.get_value(&table.store, key))
    }

    /// Begins to apply all held writes, atomically and durably: the first step.
    pub fn commit(self, table: &mut Table) -> (r: Step)
        requires
            old(table).store.wf(),
            self.inner.pending().len() > 0 ==> old(table).store@.sequence < u64::MAX,
        ensures
            final(table).store.wf(),
            r.ready(final(table).store@.tables),
            (final(table).store@, r@) == (if self.inner.pending().len() == 0 {
                (old(table).store@, StepModel::Done)
            } else {
                log_step(
                    old(table).store@,
                    (CommitModel { writes: self.inner.pending(), logged: 0, bytes: 0 }),
                )
            }),
    {
        self.inner.commit(&mut table.store)
    }

    /// Discards all held writes.
    pub fn rollback(self) {
        self.inner.rollback();
    }
}

} // verus!
