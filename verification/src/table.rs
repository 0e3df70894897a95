//! The public interface to one table: arbitrary bytes under arbitrary bytes.

use vstd::prelude::*;
use crate::bounds::{prefix_bound, prefix_upper_bound, Bound, BoundModel};
use crate::bytes::copy_bytes;
use crate::entry_map::{as_map, lemma_as_map_lookup, values_view};
use crate::errors::{public_error, AppErrorModel, Error, ErrorModel};
use crate::format::{find_in_block, pairs_in_block, Pair};
use crate::model::{
    log_step, lookup_after, lookup_start, merge_after, merge_start, put_all, scan_step, CommitModel,
    LookupModel, MergeModel, ScanModel, StepModel, StoreModel,
};
use crate::operation_laws::{last_for_its_key, law_batch_writes_every_entry};
use crate::sstable::{probe_safe, BlockRef};
use crate::store::{Lookup, Merge, Scan, Step, Store};
use crate::transaction::Transaction;
use crate::txn::Txn;
use crate::value::{EntryModel, Value, ValueModel};

verus! {

/// How far a lookup has come.
#[derive(Debug)]
pub enum Progress<T> {
    /// It is done.
    Done(T),
    /// Read a block of the file at `path`, then go on.
    Read { table: usize, path: String, block: BlockRef },
}

/// A [`Progress`] over models.
pub enum ProgressModel<T> {
    Done(T),
    Read { table: int, path: Seq<char>, block: BlockRef },
}

/// The model of a lookup for bytes.
pub open spec fn bytes_progress(p: Progress<Option<Vec<u8>>>) -> ProgressModel<Option<Seq<u8>>> {
    match p {
        Progress::Done(found) => ProgressModel::Done(bytes_view(found)),
        Progress::Read { table, path, block } => ProgressModel::Read {
            table: table as int,
            path: path@,
            block,
        },
    }
}

/// The model of a lookup for presence.
pub open spec fn presence_progress(p: Progress<bool>) -> ProgressModel<bool> {
    match p {
        Progress::Done(found) => ProgressModel::Done(found),
        Progress::Read { table, path, block } => ProgressModel::Read {
            table: table as int,
            path: path@,
            block,
        },
    }
}

/// The model of optional bytes.
pub open spec fn bytes_view(b: Option<Vec<u8>>) -> Option<Seq<u8>> {
    match b {
        Some(v) => Some(v@),
        None => None,
    }
}

/// A stored value as bytes; one that was stored as anything else is an error.
pub open spec fn as_bytes(v: Option<ValueModel>) -> Result<Option<Seq<u8>>, ErrorModel> {
    match v {
        None => Ok(None),
        Some(ValueModel::Bytes(b)) => Ok(Some(b)),
        Some(_) => Err(ErrorModel::UnexpectedValue),
    }
}

/// A lookup for bytes.
pub open spec fn get_progress(l: LookupModel) -> Result<
    ProgressModel<Option<Seq<u8>>>,
    ErrorModel,
> {
    match l {
        LookupModel::Found(v) => match as_bytes(v) {
            Ok(b) => Ok(ProgressModel::Done(b)),
            Err(e) => Err(e),
        },
        LookupModel::Read { table, path, block } => Ok(ProgressModel::Read { table, path, block }),
    }
}

/// A lookup for presence.
pub open spec fn contains_progress(l: LookupModel) -> Result<ProgressModel<bool>, ErrorModel> {
    match get_progress(l) {
        Ok(ProgressModel::Done(b)) => Ok(ProgressModel::Done(b is Some)),
        Ok(ProgressModel::Read { table, path, block }) => Ok(
            ProgressModel::Read { table, path, block },
        ),
        Err(e) => Err(e),
    }
}

/// A lookup for bytes whose block has been read.
pub open spec fn get_after_block(
    s: StoreModel,
    key: Seq<u8>,
    table: int,
    block_no: int,
    block: Seq<u8>,
) -> Result<LookupModel, ErrorModel> {
    match find_in_block(s.tables[table].index[block_no].block_offset, block, key) {
        Ok(found) => Ok(lookup_after(s.tables, table, key, found)),
        Err(text) => Err(public_error(AppErrorModel::DecodeError(text))),
    }
}

/// Keys with their values as bytes; a value that was stored as anything else is an error.
pub open spec fn all_bytes(items: Seq<(Seq<u8>, ValueModel)>) -> Result<
    Seq<(Seq<u8>, Seq<u8>)>,
    ErrorModel,
> {
    if forall|i: int| 0 <= i < items.len() ==> (#[trigger] items[i]).1 is Bytes {
        Ok(Seq::new(items.len(), |i: int| (items[i].0, items[i].1->Bytes_0)))
    } else {
        Err(ErrorModel::UnexpectedValue)
    }
}

/// A list of keys with their values, as scans give it.
pub type Pairs = Vec<(Vec<u8>, Vec<u8>)>;

/// How far a scan has come.
#[derive(Debug)]
pub enum TableScan {
    /// Read a block of the file at `path`, then go on with [`Table::scan_read`].
    ReadBlock { path: String, block: BlockRef, merge: Merge },
    /// It is done.
    Done(Pairs),
}

/// A [`TableScan`] over models.
pub enum TableScanModel {
    ReadBlock { path: Seq<char>, block: BlockRef, merge: MergeModel },
    Done(Seq<(Seq<u8>, Seq<u8>)>),
}

impl View for TableScan {
    type V = TableScanModel;

    open spec fn view(&self) -> TableScanModel {
        match *self {
            TableScan::ReadBlock { path, block, merge } => TableScanModel::ReadBlock {
                path: path@,
                block,
                merge: merge@,
            },
            TableScan::Done(items) => TableScanModel::Done(byte_pairs_view(items@)),
        }
    }
}

/// The models of some keys with bytes.
pub open spec fn byte_pairs_view(items: Seq<(Vec<u8>, Vec<u8>)>) -> Seq<(Seq<u8>, Seq<u8>)> {
    Seq::new(items.len(), |i: int| (items[i].0@, items[i].1@))
}

/// A scan for bytes.
pub open spec fn scan_progress(scan: ScanModel) -> Result<TableScanModel, ErrorModel> {
    match scan {
        ScanModel::ReadBlock { path, block, merge } => Ok(
            TableScanModel::ReadBlock { path, block, merge },
        ),
        ScanModel::Done(items) => match all_bytes(items) {
            Ok(pairs) => Ok(TableScanModel::Done(pairs)),
            Err(e) => Err(e),
        },
    }
}

/// A lookup of many keys, under way.
#[derive(Debug)]
pub struct GetBatch {
    keys: Vec<Vec<u8>>,
    found: Vec<Option<Vec<u8>>>,
}

/// The models of some keys.
pub open spec fn keys_view(keys: Seq<Vec<u8>>) -> Seq<Seq<u8>> {
    Seq::new(keys.len(), |i: int| keys[i]@)
}

/// The models of some results.
pub open spec fn found_bytes_view(found: Seq<Option<Vec<u8>>>) -> Seq<Option<Seq<u8>>> {
    Seq::new(found.len(), |i: int| bytes_view(found[i]))
}

impl GetBatch {
    /// The keys, in order.
    pub closed spec fn keys(&self) -> Seq<Seq<u8>> {
        keys_view(self.keys@)
    }

    /// What has been found for the first of them.
    pub closed spec fn found(&self) -> Seq<Option<Seq<u8>>> {
        found_bytes_view(self.found@)
    }
}

/// How far a lookup of many keys has come.
#[derive(Debug)]
pub enum BatchStep {
    /// It is done: the value of each key, or `None`, in the order of the keys.
    Done(Vec<Option<Vec<u8>>>),
    /// Read a block of the file at `path`, then go on with [`Table::batch_read`].
    Read { table: usize, path: String, block: BlockRef, batch: GetBatch },
}

/// A [`BatchStep`] over models.
pub enum BatchModel {
    Done(Seq<Option<Seq<u8>>>),
    Read {
        table: int,
        path: Seq<char>,
        block: BlockRef,
        keys: Seq<Seq<u8>>,
        found: Seq<Option<Seq<u8>>>,
    },
}

impl View for BatchStep {
    type V = BatchModel;

    open spec fn view(&self) -> BatchModel {
        match *self {
            BatchStep::Done(found) => BatchModel::Done(found_bytes_view(found@)),
            BatchStep::Read { table, path, block, batch } => BatchModel::Read {
                table: table as int,
                path: path@,
                block,
                keys: batch.keys(),
                found: batch.found(),
            },
        }
    }
}

/// A lookup of many keys, of which the first ones have been found: the others are looked up in
/// order, until one needs a block or cannot be given as bytes.
pub open spec fn batch_step(
    s: StoreModel,
    keys: Seq<Seq<u8>>,
    found: Seq<Option<Seq<u8>>>,
) -> Result<BatchModel, ErrorModel>
    decreases keys.len() - found.len(),
{
    if found.len() >= keys.len() {
        Ok(BatchModel::Done(found))
    } else {
        match get_progress(lookup_start(s, keys[found.len() as int])) {
            Err(e) => Err(e),
            Ok(ProgressModel::Done(b)) => batch_step(s, keys, found.push(b)),
            Ok(ProgressModel::Read { table, path, block }) => Ok(
                BatchModel::Read { table, path, block, keys, found },
            ),
        }
    }
}

/// A lookup of many keys whose present key has come to `l`.
pub open spec fn batch_after(
    s: StoreModel,
    keys: Seq<Seq<u8>>,
    found: Seq<Option<Seq<u8>>>,
    l: LookupModel,
) -> Result<BatchModel, ErrorModel> {
    match get_progress(l) {
        Err(e) => Err(e),
        Ok(ProgressModel::Done(b)) => batch_step(s, keys, found.push(b)),
        Ok(ProgressModel::Read { table, path, block }) => Ok(
            BatchModel::Read { table, path, block, keys, found },
        ),
    }
}

/// The writes that store each of some values under its key.
pub open spec fn byte_writes(entries: Seq<(&[u8], &[u8])>) -> Seq<Pair> {
    Seq::new(
        entries.len(),
        |i: int| (entries[i].0@, EntryModel::Value(ValueModel::Bytes(entries[i].1@))),
    )
}

/// One table.
#[derive(Debug)]
pub struct Table {
    pub store: Store,
}

/// Whether looking `key` up is safe in every table of a store.
pub open spec fn can_look_up(s: StoreModel, key: Seq<u8>) -> bool {
    forall|i: int| 0 <= i < s.tables.len() ==> probe_safe(#[trigger] s.tables[i], key)
}

impl Table {
    /// Begins to store a value, overwriting any that the key has: the first step.
    pub fn put(&mut self, key: &[u8], value: &[u8]) -> (r: Step)
        requires
            old(self).store.wf(),
            old(self).store@.sequence < u64::MAX,
        ensures
            final(self).store.wf(),
            r.ready(final(self).store@.tables),
            (final(self).store@, r@) == log_step(
                old(self).store@,
                CommitModel {
                    writes: seq![(key@, EntryModel::Value(ValueModel::Bytes(value@)))],
                    logged: 0,
                    bytes: 0,
                },
            ),
    {
        self.store.set_value(copy_bytes(key), Value::Bytes(copy_bytes(value)))
    }

    /// Begins to look the value of a key up.
    pub fn get(&self, key: &[u8]) -> (r: Result<Progress<Option<Vec<u8>>>, Error>)
        requires
            self.store.wf(),
            can_look_up(self.store@, key@),
        ensures
            match get_progress(lookup_start(self.store@, key@)) {
                Ok(p) => r matches Ok(x) && bytes_progress(x) == p,
                Err(e) => r matches Err(x) && x@ == e,
            },
            r matches Ok(Progress::Read { table, path, block }) ==> table
                < self.store@.tables.len() && block.block
                < self.store@.tables[table as int].index.len(),
            forall|i: int|
                0 <= i < self.store@.memtable.len() && (#[trigger] self.store@.memtable[i]).0
                    == key@ ==> match self.store@.memtable[i].1 {
                    EntryModel::Value(ValueModel::Bytes(v)) => r matches Ok(
                        Progress::Done(Some(x)),
                    ) && x@ == v,
                    EntryModel::Value(_) => r matches Err(Error::UnexpectedValue),
                    EntryModel::Tombstone => r matches Ok(Progress::Done(None)),
                },
    {
        proof {
            lemma_as_map_lookup(self.store@.memtable, key@);
        }
        lookup_bytes(self.store.get_value(key))
    }

    /// Goes on with [`Table::get`] when its block has been read.
    pub fn get_from(&self, key: &[u8], table: usize, block_no: usize, block: &[u8]) -> (r: Result<
        Progress<Option<Vec<u8>>>,
        Error,
    >)
        requires
            table < self.store@.tables.len(),
            block_no < self.store@.tables[table as int].index.len(),
            block@.len() >= 4,
            can_look_up(self.store@, key@),
        ensures
            match get_after_block(self.store@, key@, table as int, block_no as int, block@) {
                Ok(l) => match get_progress(l) {
                    Ok(p) => r matches Ok(x) && bytes_progress(x) == p,
                    Err(e) => r matches Err(x) && x@ == e,
                },
                Err(e) => r matches Err(x) && x@ == e,
            },
            r matches Ok(Progress::Read { table: t, path, block: b }) ==> t
                < self.store@.tables.len() && b.block < self.store@.tables[t as int].index.len(),
    {
        match self.store.get_value_from(key, table, block_no, block) {
            Ok(l) => lookup_bytes(l),
            Err(e) => Err(Error::from(e)),
        }
    }

    /// Begins to find whether a key is present.
    pub fn contains(&self, key: &[u8]) -> (r: Result<Progress<bool>, Error>)
        requires
            self.store.wf(),
            can_look_up(self.store@, key@),
        ensures
            match contains_progress(lookup_start(self.store@, key@)) {
                Ok(p) => r matches Ok(x) && presence_progress(x) == p,
                Err(e) => r matches Err(x) && x@ == e,
            },
            r matches Ok(Progress::Read { table, path, block }) ==> table
                < self.store@.tables.len() && block.block
                < self.store@.tables[table as int].index.len(),
            forall|i: int|
                0 <= i < self.store@.memtable.len() && (#[trigger] self.store@.memtable[i]).0
                    == key@ ==> match self.store@.memtable[i].1 {
                    EntryModel::Value(ValueModel::Bytes(_)) => r matches Ok(Progress::Done(true)),
                    EntryModel::Value(_) => r matches Err(Error::UnexpectedValue),
                    EntryModel::Tombstone => r matches Ok(Progress::Done(false)),
                },
    {
        is_present(self.get(key))
    }

    /// Goes on with [`Table::contains`] when its block has been read.
    pub fn contains_from(&self, key: &[u8], table: usize, block_no: usize, block: &[u8]) -> (r:
        Result<Progress<bool>, Error>)
        requires
            table < self.store@.tables.len(),
            block_no < self.store@.tables[table as int].index.len(),
            block@.len() >= 4,
            can_look_up(self.store@, key@),
        ensures
            match get_after_block(self.store@, key@, table as int, block_no as int, block@) {
                Ok(l) => match contains_progress(l) {
                    Ok(p) => r matches Ok(x) && presence_progress(x) == p,
                    Err(e) => r matches Err(x) && x@ == e,
                },
                Err(e) => r matches Err(x) && x@ == e,
            },
            r matches Ok(Progress::Read { table: t, path, block: b }) ==> t
                < self.store@.tables.len() && b.block < self.store@.tables[t as int].index.len(),
    {
        is_present(self.get_from(key, table, block_no, block))
    }

    /// Begins to delete a key: the first step. It is not an error to delete a key that is not
    /// present.
    pub fn delete(&mut self, key: &[u8]) -> (r: Step)
        requires
            old(self).store.wf(),
            old(self).store@.sequence < u64::MAX,
        ensures
            final(self).store.wf(),
            r.ready(final(self).store@.tables),
            (final(self).store@, r@) == log_step(
                old(self).store@,
                CommitModel { writes: seq![(key@, EntryModel::Tombstone)], logged: 0, bytes: 0 },
            ),
    {
        self.store.delete_value(key)
    }

    /// Begins to store many values together: the first step. Either all of them land or none.
    pub fn put_batch(&mut self, entries: &[(&[u8], &[u8])]) -> (r: Step)
        requires
            old(self).store.wf(),
            entries@.len() > 0 ==> old(self).store@.sequence < u64::MAX,
        ensures
            final(self).store.wf(),
            r.ready(final(self).store@.tables),
            (final(self).store@, r@) == ({
                let writes = put_all(Seq::empty(), byte_writes(entries@));
                if writes.len() == 0 {
                    (old(self).store@, StepModel::Done)
                } else {
                    log_step(old(self).store@, (CommitModel { writes, logged: 0, bytes: 0 }))
                }
            }),
            entries@.len() == 0 ==> r == Step::Done && final(self).store@ == old(self).store@,
            entries@.len() > 0 ==> r is Append,
            forall|i: int|
                0 <= i < entries@.len() && #[trigger] last_for_its_key(entries@, i) ==> (
                r@ matches StepModel::Append { bytes, commit } && as_map(commit.writes).contains_key(
                    entries@[i].0@,
                ) && as_map(commit.writes)[entries@[i].0@] == EntryModel::Value(
                    ValueModel::Bytes(entries@[i].1@),
                )),
    {
        let ghost all = byte_writes(entries@);
        let mut tx: Transaction = self.store.begin_transaction();
        let mut i: usize = 0;
        assert(all.take(0) =~= Seq::<Pair>::empty());
        while i < entries.len()
            invariant
                i <= entries@.len(),
                all == byte_writes(entries@),
                tx.wf(),
                tx.pending() == put_all(Seq::empty(), all.take(i as int)),
            decreases entries@.len() - i,
        {
            proof {
                assert(all.take(i + 1).drop_last() =~= all.take(i as int));
                assert(all.take(i + 1).last() == all[i as int]);
            }
            let entry: (&[u8], &[u8]) = entries[i];
            tx.set_value(copy_bytes(entry.0), Value::Bytes(copy_bytes(entry.1)));
            i = i + 1;
        }
        assert(all.take(i as int) =~= all);
        proof {
            law_batch_writes_every_entry(entries@, 0, Seq::empty());
            assert forall|i: int|
                0 <= i < entries@.len() && #[trigger] last_for_its_key(
                    entries@,
                    i,
                ) implies as_map(tx.pending()).contains_key(entries@[i].0@) && as_map(
                tx.pending(),
            )[entries@[i].0@] == EntryModel::Value(ValueModel::Bytes(entries@[i].1@)) by {
                law_batch_writes_every_entry(entries@, i, Seq::empty());
            }
        }
        tx.commit(&mut self.store)
    }

    /// Begins to look many keys up.
    pub fn get_batch(&self, keys: &[&[u8]]) -> (r: Result<BatchStep, Error>)
        requires
            self.store.wf(),
            forall|i: int| 0 <= i < keys@.len() ==> can_look_up(self.store@, #[trigger] keys@[i]@),
        ensures
            match batch_step(
                self.store@,
                Seq::new(keys@.len(), |i: int| keys@[i]@),
                Seq::empty(),
            ) {
                Ok(m) => r matches Ok(x) && x@ == m && self.batch_waits(x),
                Err(e) => r matches Err(x) && x@ == e,
            },
    {
        let mut owned: Vec<Vec<u8>> = Vec::new();
        let mut i: usize = 0;
        while i < keys.len()
            invariant
                i <= keys@.len(),
                owned@.len() == i,
                forall|j: int| 0 <= j < i ==> (#[trigger] owned@[j])@ == keys@[j]@,
            decreases keys@.len() - i,
        {
            owned.push(copy_bytes(keys[i]));
            i = i + 1;
        }
        proof {
            assert(keys_view(owned@) =~= Seq::new(keys@.len(), |i: int| keys@[i]@));
            assert forall|j: int| 0 <= j < owned@.len() implies can_look_up(
                self.store@,
                #[trigger] keys_view(owned@)[j],
            ) by {
                assert(owned@[j]@ == keys@[j]@);
                assert(can_look_up(self.store@, keys@[j]@));
            }
        }
        let batch = GetBatch { keys: owned, found: Vec::new() };
        assert(batch.found() =~= Seq::<Option<Seq<u8>>>::empty());
        self.batch_next(batch)
    }

    /// Whether a lookup of many keys that needs a block can go on once it has it.
    pub open spec fn batch_waits(&self, step: BatchStep) -> bool {
        step matches BatchStep::Read { table, path, block, batch } ==> {
            &&& table < self.store@.tables.len()
            &&& block.block < self.store@.tables[table as int].index.len()
            &&& self.batch_wf(batch)
            &&& batch.found().len() < batch.keys().len()
        }
    }

    /// Whether every key of a lookup of many keys can be looked up.
    pub open spec fn batch_wf(&self, batch: GetBatch) -> bool {
        forall|j: int|
            0 <= j < batch.keys().len() ==> can_look_up(self.store@, #[trigger] batch.keys()[j])
    }

    /// Goes on with [`Table::get_batch`] when its block has been read.
    pub fn batch_read(&self, batch: GetBatch, table: usize, block_no: usize, block: &[u8]) -> (r:
        Result<BatchStep, Error>)
        requires
            self.store.wf(),
            self.batch_wf(batch),
            batch.found().len() < batch.keys().len(),
            table < self.store@.tables.len(),
            block_no < self.store@.tables[table as int].index.len(),
            block@.len() >= 4,
        ensures
            match get_after_block(
                self.store@,
                batch.keys()[batch.found().len() as int],
                table as int,
                block_no as int,
                block@,
            ) {
                Ok(l) => match batch_after(self.store@, batch.keys(), batch.found(), l) {
                    Ok(m) => r matches Ok(x) && x@ == m && self.batch_waits(x),
                    Err(e) => r matches Err(x) && x@ == e,
                },
                Err(e) => r matches Err(x) && x@ == e,
            },
    {
        let mut batch: GetBatch = batch;
        let i: usize = batch.found.len();
        assert(batch.keys@[i as int]@ == batch.keys()[i as int]);
        match self.get_from(batch.keys[i].as_slice(), table, block_no, block) {
            Err(e) => Err(e),
            Ok(Progress::Read { table: t, path, block: b }) => Ok(
                BatchStep::Read { table: t, path, block: b, batch },
            ),
            Ok(Progress::Done(v)) => {
                let ghost before = batch.found@;
                batch.found.push(v);
                assert(batch.found() =~= found_bytes_view(before).push(bytes_view(v)));
                self.batch_next(batch)
            },
        }
    }

    fn batch_next(&self, start: GetBatch) -> (r: Result<BatchStep, Error>)
        requires
            self.store.wf(),
            self.batch_wf(start),
            start.found().len() <= start.keys().len(),
        ensures
            match batch_step(self.store@, start.keys(), start.found()) {
                Ok(m) => r matches Ok(x) && x@ == m && self.batch_waits(x),
                Err(e) => r matches Err(x) && x@ == e,
            },
    {
        let ghost goal = batch_step(self.store@, start.keys(), start.found());
        let mut batch: GetBatch = start;
        while batch.found.len() < batch.keys.len()
            invariant
                goal == batch_step(self.store@, start.keys(), start.found()),
                self.store.wf(),
                self.batch_wf(batch),
                batch.found().len() <= batch.keys().len(),
                goal == batch_step(self.store@, batch.keys(), batch.found()),
            decreases batch.keys().len() - batch.found().len(),
        {
            let i: usize = batch.found.len();
            assert(batch.keys@[i as int]@ == batch.keys()[i as int]);
            match self.get(batch.keys[i].as_slice()) {
                Err(e) => return Err(e),
                Ok(Progress::Read { table, path, block }) => {
                    return Ok(BatchStep::Read { table, path, block, batch });
                },
                Ok(Progress::Done(v)) => {
                    let ghost before = batch.found@;
                    batch.found.push(v);
                    assert(batch.found() =~= found_bytes_view(before).push(bytes_view(v)));
                },
            }
        }
        Ok(BatchStep::Done(batch.found))
    }

    /// Begins a transaction.
    pub fn transaction(&self) -> (r: Txn)
        ensures
            r.inner.wf(),
            r.inner.pending() == Seq::<Pair>::empty(),
    {
        Txn { inner: self.store.begin_transaction() }
    }

    /// Begins to collect every key with its value, in ascending key order.
    pub fn scan(&self) -> (r: Result<TableScan, Error>)
        requires
            self.store.wf(),
        ensures
            self.scan_result(BoundModel::Unbounded, BoundModel::Unbounded, r),
    {
        self.range_bounds(Bound::Unbounded, Bound::Unbounded)
    }

    /// Begins to collect the keys from `start` on and before `end`, with their values, in
    /// ascending key order.
    pub fn range(&self, start: &[u8], end: &[u8]) -> (r: Result<TableScan, Error>)
        requires
            self.store.wf(),
        ensures
            self.scan_result(BoundModel::Included(start@), BoundModel::Excluded(end@), r),
    {
        self.range_bounds(Bound::Included(copy_bytes(start)), Bound::Excluded(copy_bytes(end)))
    }

    /// Begins to collect the keys that begin with `prefix`, with their values, in ascending key
    /// order.
    pub fn scan_prefix(&self, prefix: &[u8]) -> (r: Result<TableScan, Error>)
        requires
            self.store.wf(),
        ensures
            self.scan_result(BoundModel::Included(prefix@), prefix_bound(prefix@), r),
    {
        let hi: Bound = match prefix_upper_bound(prefix) {
            Some(end) => Bound::Excluded(end),
            None => Bound::Unbounded,
        };
        self.range_bounds(Bound::Included(copy_bytes(prefix)), hi)
    }

    /// What beginning a scan within the bounds gives.
    pub open spec fn scan_result(
        &self,
        lo: BoundModel,
        hi: BoundModel,
        r: Result<TableScan, Error>,
    ) -> bool {
        match scan_progress(scan_step(self.store@, merge_start(self.store@.tables, lo, hi))) {
            Ok(m) => r matches Ok(x) && x@ == m && self.scan_waits(x),
            Err(e) => r matches Err(x) && x@ == e,
        }
    }

    /// Whether a scan that needs a block can go on once it has it.
    pub open spec fn scan_waits(&self, scan: TableScan) -> bool {
        scan matches TableScan::ReadBlock { path, block, merge } ==> merge.waits(
            self.store@.tables,
        )
    }

    fn range_bounds(&self, lo: Bound, hi: Bound) -> (r: Result<TableScan, Error>)
        requires
            self.store.wf(),
        ensures
            self.scan_result(lo@, hi@, r),
    {
        scanned_bytes(self.store.scan_range(lo, hi))
    }

    /// Goes on with a scan when its block has been read.
    pub fn scan_read(&self, merge: Merge, block: &[u8]) -> (r: Result<TableScan, Error>)
        requires
            self.store.wf(),
            merge.waits(self.store@.tables),
            block@.len() >= 4,
        ensures
            match pairs_in_block(
                self.store@.tables[merge@.table].index[merge@.block].block_offset,
                block@,
            ) {
                Ok(pairs) => match scan_progress(
                    scan_step(self.store@, merge_after(merge@, pairs)),
                ) {
                    Ok(m) => r matches Ok(x) && x@ == m && self.scan_waits(x),
                    Err(e) => r matches Err(x) && x@ == e,
                },
                Err(text) => r matches Err(x) && x@ == public_error(
                    AppErrorModel::DecodeError(text),
                ),
            },
    {
        match self.store.scan_read(merge, block) {
            Ok(scan) => scanned_bytes(scan),
            Err(e) => Err(Error::from(e)),
        }
    }
}

/// A lookup for bytes.
pub fn lookup_bytes(l: Lookup) -> (r: Result<Progress<Option<Vec<u8>>>, Error>)
    ensures
        match get_progress(l@) {
            Ok(p) => r matches Ok(x) && bytes_progress(x) == p,
            Err(e) => r matches Err(x) && x@ == e,
        },
        r matches Ok(Progress::Read { table, path, block }) ==> l == (Lookup::Read {
            table,
            path,
            block,
        }),
        l matches Lookup::Found(Some(Value::Bytes(b))) ==> (r matches Ok(Progress::Done(Some(x)))
            && x@ == b@),
        l matches Lookup::Found(Some(v)) && !(v is Bytes) ==> r == Err::<
            Progress<Option<Vec<u8>>>,
            Error,
        >(Error::UnexpectedValue),
        l matches Lookup::Found(None) ==> r == Ok::<Progress<Option<Vec<u8>>>, Error>(
            Progress::Done(None),
        ),
{
    match l {
        Lookup::Found(Some(Value::Bytes(b))) => Ok(Progress::Done(Some(b))),
        Lookup::Found(Some(_)) => Err(Error::UnexpectedValue),
        Lookup::Found(None) => Ok(Progress::Done(None)),
        Lookup::Read { table, path, block } => Ok(Progress::Read { table, path, block }),
    }
}

fn is_present(found: Result<Progress<Option<Vec<u8>>>, Error>) -> (r: Result<
    Progress<bool>,
    Error,
>)
    ensures
        match found {
            Ok(Progress::Done(b)) => r matches Ok(Progress::Done(x)) && x == (b is Some),
            Ok(Progress::Read { table, path, block }) => r == Ok::<Progress<bool>, Error>(
                Progress::Read { table, path, block },
            ),
            Err(e) => r == Err::<Progress<bool>, Error>(e),
        },
{
    match found {
        Ok(Progress::Done(b)) => Ok(Progress::Done(b.is_some())),
        Ok(Progress::Read { table, path, block }) => Ok(Progress::Read { table, path, block }),
        Err(e) => Err(e),
    }
}

/// A scan for bytes.
fn scanned_bytes(scan: Scan) -> (r: Result<TableScan, Error>)
    ensures
        match scan_progress(scan@) {
            Ok(m) => r matches Ok(x) && x@ == m,
            Err(e) => r matches Err(x) && x@ == e,
        },
        r matches Ok(TableScan::ReadBlock { path, block, merge }) ==> scan == (Scan::ReadBlock {
            path,
            block,
            merge,
        }),
{
    let ghost goal = scan_progress(scan@);
    match scan {
        Scan::ReadBlock { path, block, merge } => Ok(TableScan::ReadBlock { path, block, merge }),
        Scan::Done(items) => {
            let ghost all = values_view(items@);
            let mut out: Pairs = Vec::new();
            let mut i: usize = 0;
            while i < items.len()
                invariant
                    i <= items@.len(),
                    all == values_view(items@),
                    goal == scan_progress(scan@),
                    goal == scan_progress(ScanModel::Done(all)),
                    out@.len() == i,
                    forall|j: int| 0 <= j < i ==> (#[trigger] all[j]).1 is Bytes,
                    forall|j: int|
                        0 <= j < i ==> (#[trigger] out@[j]).0@ == all[j].0 && out@[j].1@
                            == all[j].1->Bytes_0,
                decreases items@.len() - i,
            {
                match &items[i].1 {
                    Value::Bytes(b) => {
                        assert(all[i as int].1 is Bytes);
                        out.push((copy_bytes(items[i].0.as_slice()), copy_bytes(b.as_slice())));
                    },
                    _ => {
                        assert(!(all[i as int].1 is Bytes));
                        return Err(Error::UnexpectedValue);
                    },
                }
                i = i + 1;
            }
            assert(byte_pairs_view(out@) =~= Seq::new(
                all.len(),
                |i: int| (all[i].0, all[i].1->Bytes_0),
            ));
            Ok(TableScan::Done(out))
        },
    }
}

/// What beginning a scan gives is what the scan has come to: the block that is to be read, or every
/// key with its bytes, or an error if one of the values is not bytes.
pub proof fn law_scan_result_is_the_answer(
    table: Table,
    lo: BoundModel,
    hi: BoundModel,
    r: Result<TableScan, Error>,
)
    ensures
        table.scan_result(lo, hi, r) <==> match scan_step(
            table.store@,
            merge_start(table.store@.tables, lo, hi),
        ) {
            ScanModel::Done(items) => if forall|i: int|
                0 <= i < items.len() ==> (#[trigger] items[i]).1 is Bytes {
                &&& r matches Ok(TableScan::Done(pairs))
                &&& pairs@.len() == items.len()
                &&& forall|i: int|
                    0 <= i < items.len() ==> (#[trigger] pairs@[i]).0@ == items[i].0
                        && items[i].1 == ValueModel::Bytes(pairs@[i].1@)
            } else {
                r matches Err(x) && x@ == ErrorModel::UnexpectedValue
            },
            ScanModel::ReadBlock { path, block, merge } => {
                &&& r matches Ok(TableScan::ReadBlock { path: p, block: b, merge: m })
                &&& p@ == path
                &&& b == block
                &&& m@ == merge
                &&& m.waits(table.store@.tables)
            },
        },
{
    if let ScanModel::Done(items) = scan_step(
        table.store@,
        merge_start(table.store@.tables, lo, hi),
    ) {
        if let Ok(TableScan::Done(pairs)) = r {
            lemma_all_bytes_of(items, pairs@);
        }
    }
}

proof fn lemma_all_bytes_of(items: Seq<(Seq<u8>, ValueModel)>, pairs: Seq<(Vec<u8>, Vec<u8>)>)
    ensures
        all_bytes(items) == Ok::<Seq<(Seq<u8>, Seq<u8>)>, ErrorModel>(byte_pairs_view(pairs)) <==> {
            &&& forall|i: int| 0 <= i < items.len() ==> (#[trigger] items[i]).1 is Bytes
            &&& pairs.len() == items.len()
            &&& forall|i: int|
                0 <= i < items.len() ==> (#[trigger] pairs[i]).0@ == items[i].0 && items[i].1
                    == ValueModel::Bytes(pairs[i].1@)
        },
{
    if forall|i: int| 0 <= i < items.len() ==> (#[trigger] items[i]).1 is Bytes {
        let all = Seq::new(items.len(), |i: int| (items[i].0, items[i].1->Bytes_0));
        let given = byte_pairs_view(pairs);
        assert(all_bytes(items) == Ok::<Seq<(Seq<u8>, Seq<u8>)>, ErrorModel>(all));
        assert(given.len() == pairs.len() && all.len() == items.len());
        if given == all {
            assert forall|i: int| 0 <= i < items.len() implies (#[trigger] pairs[i]).0@
                == items[i].0 && items[i].1 == ValueModel::Bytes(pairs[i].1@) by {
                assert(given[i] == all[i]);
                assert(items[i].1 is Bytes);
            }
        } else if pairs.len() == items.len() && forall|i: int|
            0 <= i < items.len() ==> (#[trigger] pairs[i]).0@ == items[i].0 && items[i].1
                == ValueModel::Bytes(pairs[i].1@) {
            assert forall|i: int| 0 <= i < items.len() implies given[i] == all[i] by {
                assert(pairs[i].0@ == items[i].0);
            }
            assert(given =~= all);
        }
    }
}

/// What the results of a table stand for is what they hold, whole.
pub proof fn law_table_results_stand_for_what_they_hold(
    bytes: Vec<u8>,
    present: bool,
    table: usize,
    path: String,
    block: BlockRef,
    merge: Merge,
    pairs: Vec<(Vec<u8>, Vec<u8>)>,
    found: Vec<Option<Vec<u8>>>,
    entries: Seq<(&[u8], &[u8])>,
    i: int,
)
    ensures
        bytes_progress(Progress::Done(Some(bytes))) == ProgressModel::Done(Some(bytes@)),
        bytes_progress(Progress::Done(None)) == ProgressModel::<Option<Seq<u8>>>::Done(None),
        bytes_progress(Progress::Read { table, path, block }) == (ProgressModel::<
            Option<Seq<u8>>,
        >::Read { table: table as int, path: path@, block }),
        presence_progress(Progress::Done(present)) == ProgressModel::Done(present),
        presence_progress(Progress::Read { table, path, block }) == (ProgressModel::<bool>::Read {
            table: table as int,
            path: path@,
            block,
        }),
        TableScan::Done(pairs)@ == TableScanModel::Done(byte_pairs_view(pairs@)),
        (TableScan::ReadBlock { path, block, merge })@ == (TableScanModel::ReadBlock {
            path: path@,
            block,
            merge: merge@,
        }),
        byte_pairs_view(pairs@).len() == pairs@.len(),
        0 <= i < pairs@.len() ==> byte_pairs_view(pairs@)[i] == (pairs@[i].0@, pairs@[i].1@),
        BatchStep::Done(found)@ == BatchModel::Done(found_bytes_view(found@)),
        found_bytes_view(found@).len() == found@.len(),
        0 <= i < found@.len() ==> found_bytes_view(found@)[i] == (match found@[i] {
            Some(b) => Some(b@),
            None => None,
        }),
        byte_writes(entries).len() == entries.len(),
        0 <= i < entries.len() ==> byte_writes(entries)[i] == (
            entries[i].0@,
            EntryModel::Value(ValueModel::Bytes(entries[i].1@)),
        ),
{
}

} // verus!
