//! Stores, transactions, tables and databases, with their files held in memory.

use ferrumdb::bounds::{prefix_upper_bound, Bound};
use ferrumdb::database::Database;
use ferrumdb::errors::{AppError, Error};
use ferrumdb::model::DEFAULT_MEMTABLE_MAX_BYTES;
use ferrumdb::names::sstable_id_from_name;
use ferrumdb::proto::Operation;
use ferrumdb::sstable::{BlockRef, Footer, SsTable};
use ferrumdb::store::{Lookup, Scan, Step, Store, DELETED, INSERTED};
use ferrumdb::table::{BatchStep, Progress, Table, TableScan};
use ferrumdb::transaction::Transaction;
use ferrumdb::txn::Txn;
use ferrumdb::value::{Entry, Value};
use ferrumdb::wal::Wal;
use std::collections::BTreeMap;
use std::time::Instant;

/// The files of one table.
#[derive(Clone, Default)]
struct Disk {
    log: Vec<u8>,
    files: BTreeMap<String, Vec<u8>>,
    /// How many files can be removed at a time, if not all.
    removable: Option<usize>,
}

impl Disk {
    fn read(&self, path: &str, block: BlockRef) -> Vec<u8> {
        let start = block.offset as usize;
        self.files[path][start..start + block.len as usize].to_vec()
    }

    fn open(&mut self, dir: &str) -> Result<Store, AppError> {
        let mut found = Vec::new();
        for (path, file) in &self.files {
            let name = path.rsplit('/').next().unwrap();
            if let Some(id) = sstable_id_from_name(name) {
                let footer = Footer::parse(file)?;
                let start = footer.index_offset as usize;
                let region = &file[start..start + footer.index_len as usize];
                found.push((id, SsTable::open(path.clone(), &footer, region)?));
            }
        }
        let mut store = Store::open_with_dir(dir.to_string(), found);
        let recovery = store.recover(&self.log);
        if let Some(len) = recovery.truncate_to {
            self.log.truncate(len);
        }
        store.replay_wal(&recovery.entries)?;
        Ok(store)
    }

    /// Does what one step asks for and reports it; `None` once the operation is done.
    fn perform(&mut self, store: &mut Store, step: Step) -> Result<Option<Step>, AppError> {
        Ok(match step {
            Step::Append { bytes, commit } => {
                self.log.extend(bytes);
                Some(store.appended(commit))
            }
            Step::Commit { bytes, commit } => {
                self.log.extend(bytes);
                Some(store.committed(commit))
            }
            Step::WriteTable { path, bytes, table } => {
                self.files.insert(path, bytes);
                Some(store.table_written(table))
            }
            Step::ClearLog => {
                self.log.clear();
                Some(store.log_cleared())
            }
            Step::ReadBlock { path, block, merge } => {
                let bytes = self.read(&path, block);
                Some(store.merge_read(merge, &bytes)?)
            }
            Step::WriteMerged { path, bytes, merged } => {
                self.files.insert(path, bytes);
                Some(store.merged_written(merged))
            }
            Step::CutLog { len } => {
                self.log.truncate(len as usize);
                None
            }
            Step::Remove { paths } => {
                let gone = paths.len().min(self.removable.unwrap_or(usize::MAX));
                for path in &paths[..gone] {
                    self.files.remove(path);
                }
                Some(store.removed(gone))
            }
            Step::Done => None,
        })
    }

    fn run(&mut self, store: &mut Store, step: Step) -> Result<(), AppError> {
        let mut next = Some(step);
        while let Some(step) = next {
            next = self.perform(store, step)?;
        }
        Ok(())
    }

    fn finish(&self, store: &Store, key: &[u8], lookup: Lookup) -> Result<Option<Value>, AppError> {
        let mut lookup = lookup;
        loop {
            match lookup {
                Lookup::Found(v) => return Ok(v),
                Lookup::Read { table, path, block } => {
                    let bytes = self.read(&path, block);
                    lookup = store.get_value_from(key, table, block.block, &bytes)?;
                }
            }
        }
    }

    fn count_sstables(&self) -> usize {
        self.files.keys().filter(|p| p.contains("sstable_") && p.ends_with(".sst")).count()
    }
}

/// A store and its files.
struct Engine {
    store: Store,
    disk: Disk,
    dir: String,
}

impl Engine {
    fn new(name: &str) -> Engine {
        let dir = format!("./data/{name}");
        let mut disk = Disk::default();
        let store = disk.open(&dir).unwrap();
        Engine { store, disk, dir }
    }

    /// Drops the store and opens it anew from its files.
    fn reopen(self) -> Engine {
        let Engine { mut disk, dir, .. } = self;
        let store = disk.open(&dir).unwrap();
        Engine { store, disk, dir }
    }

    fn set_value(&mut self, key: Vec<u8>, value: Value) -> Result<&'static str, AppError> {
        let step = self.store.set_value(key, value);
        self.disk.run(&mut self.store, step)?;
        Ok(INSERTED)
    }

    fn delete_value(&mut self, key: &[u8]) -> Result<&'static str, AppError> {
        let step = self.store.delete_value(key);
        self.disk.run(&mut self.store, step)?;
        Ok(DELETED)
    }

    fn get_value(&self, key: &[u8]) -> Result<Option<Value>, AppError> {
        assert!(self.store.can_probe(key));
        self.disk.finish(&self.store, key, self.store.get_value(key))
    }

    fn get_in(&self, tx: &Transaction, key: &[u8]) -> Result<Option<Value>, AppError> {
        self.disk.finish(&self.store, key, tx.get_value(&self.store, key))
    }

    fn commit(&mut self, tx: Transaction) -> Result<(), AppError> {
        let step = tx.commit(&mut self.store);
        self.disk.run(&mut self.store, step)
    }

    fn flush(&mut self) -> Result<(), AppError> {
        let step = self.store.flush();
        self.disk.run(&mut self.store, step)
    }

    fn compact(&mut self) -> Result<(), AppError> {
        let step = self.store.compact();
        self.disk.run(&mut self.store, step)
    }

    fn scan_range(&self, lo: Bound, hi: Bound) -> Result<Vec<(Vec<u8>, Value)>, AppError> {
        let mut scan = self.store.scan_range(lo, hi);
        loop {
            match scan {
                Scan::Done(items) => return Ok(items),
                Scan::ReadBlock { path, block, merge } => {
                    let bytes = self.disk.read(&path, block);
                    scan = self.store.scan_read(merge, &bytes)?;
                }
            }
        }
    }

    fn all(&self) -> Vec<(Vec<u8>, Value)> {
        self.scan_range(Bound::Unbounded, Bound::Unbounded).unwrap()
    }

    fn keys(&self) -> Vec<Vec<u8>> {
        let data = self.store.get_data();
        (0..data.len()).map(|i| data.key_at(i).clone()).collect()
    }
}

// ---- recovery ----

#[test]
fn test_wal_replay_on_open() {
    let mut e = Engine::new("test_wal_replay");
    e.set_value(b"a".to_vec(), Value::Integer(1)).unwrap();
    e.set_value(b"b".to_vec(), Value::Text("hello".to_string())).unwrap();
    e.set_value(b"c".to_vec(), Value::Boolean(true)).unwrap();

    let e = e.reopen();
    assert_eq!(e.get_value(b"a").unwrap(), Some(Value::Integer(1)));
    assert_eq!(e.get_value(b"b").unwrap(), Some(Value::Text("hello".to_string())));
    assert_eq!(e.get_value(b"c").unwrap(), Some(Value::Boolean(true)));
}

#[test]
fn test_delete_replayed_on_open() {
    let mut e = Engine::new("test_delete_replay");
    e.set_value(b"keep".to_vec(), Value::Integer(10)).unwrap();
    e.set_value(b"drop".to_vec(), Value::Integer(99)).unwrap();
    e.delete_value(b"drop").unwrap();

    let e = e.reopen();
    assert_eq!(e.get_value(b"keep").unwrap(), Some(Value::Integer(10)));
    assert_eq!(e.get_value(b"drop").unwrap(), None);
}

#[test]
fn test_flush_clears_wal() {
    let mut e = Engine::new("test_flush_clears_wal");
    e.set_value(b"x".to_vec(), Value::Float(2.5f64.to_bits())).unwrap();
    e.flush().unwrap();

    let wal = Wal::with_path(e.store.log_path().to_string());
    let wal_entries = wal.read_all(&e.disk.log);
    assert!(wal_entries.is_empty(), "WAL must be empty after a flush");
}

#[test]
fn test_recovery_after_flush() {
    let mut e = Engine::new("test_recovery_after_flush");
    e.set_value(b"k1".to_vec(), Value::Integer(1)).unwrap();
    e.set_value(b"k2".to_vec(), Value::Integer(2)).unwrap();
    e.flush().unwrap();

    let e = e.reopen();
    assert_eq!(e.get_value(b"k1").unwrap(), Some(Value::Integer(1)));
    assert_eq!(e.get_value(b"k2").unwrap(), Some(Value::Integer(2)));
}

#[test]
fn test_recovery_sstable_plus_wal() {
    let mut e = Engine::new("test_sstable_plus_wal");
    e.set_value(b"a".to_vec(), Value::Integer(1)).unwrap();
    e.set_value(b"b".to_vec(), Value::Integer(2)).unwrap();
    e.flush().unwrap();
    e.set_value(b"c".to_vec(), Value::Integer(3)).unwrap();
    e.set_value(b"d".to_vec(), Value::Integer(4)).unwrap();

    let e = e.reopen();
    assert_eq!(e.get_value(b"a").unwrap(), Some(Value::Integer(1)));
    assert_eq!(e.get_value(b"b").unwrap(), Some(Value::Integer(2)));
    assert_eq!(e.get_value(b"c").unwrap(), Some(Value::Integer(3)));
    assert_eq!(e.get_value(b"d").unwrap(), Some(Value::Integer(4)));
}

#[test]
fn test_sequence_continues_after_open() {
    let mut e = Engine::new("test_sequence_continuity");
    e.set_value(b"x".to_vec(), Value::Integer(1)).unwrap();
    e.set_value(b"y".to_vec(), Value::Integer(2)).unwrap();

    let mut e = e.reopen();
    e.set_value(b"z".to_vec(), Value::Integer(3)).unwrap();

    let entries = Wal::with_path(e.store.log_path().to_string()).read_all(&e.disk.log);
    let sequences: Vec<u64> = entries
        .iter()
        .filter(|e| matches!(e.operation(), Operation::Put | Operation::Delete))
        .map(|e| e.sequence)
        .collect();
    assert!(
        sequences.windows(2).all(|w| w[0] < w[1]),
        "sequences must be strictly increasing: {:?}",
        sequences
    );
    assert_eq!(sequences, vec![1, 2, 3]);
}

#[test]
fn test_tombstone_shadows_across_sstables() {
    let mut e = Engine::new("test_tombstone_shadows_sstables");
    e.set_value(b"x".to_vec(), Value::Integer(5)).unwrap();
    e.flush().unwrap();
    e.delete_value(b"x").unwrap();
    e.flush().unwrap();

    let e = e.reopen();
    assert_eq!(
        e.get_value(b"x").unwrap(),
        None,
        "a newer tombstone SSTable must shadow an older value SSTable"
    );
}

#[test]
fn test_wal_delete_shadows_sstable_value() {
    let mut e = Engine::new("test_wal_delete_shadows_sstable");
    e.set_value(b"x".to_vec(), Value::Integer(5)).unwrap();
    e.flush().unwrap();
    e.delete_value(b"x").unwrap();

    let e = e.reopen();
    assert_eq!(
        e.get_value(b"x").unwrap(),
        None,
        "a committed WAL delete must shadow the SSTable value on recovery"
    );
}

#[test]
fn test_uncommitted_tail_not_adopted_by_later_commit() {
    let mut e = Engine::new("test_uncommitted_tail");
    e.set_value(b"committed".to_vec(), Value::Integer(1)).unwrap();

    // A crash that left an uncommitted put in the log.
    let raw = Wal::with_path(e.store.log_path().to_string());
    let ghost = Wal::create_put_entry(b"ghost".to_vec(), &Value::Integer(99), 50);
    e.disk.log.extend(raw.append(&ghost));

    let mut e = e.reopen();
    assert_eq!(e.get_value(b"ghost").unwrap(), None, "uncommitted entry must not survive reopen");
    e.set_value(b"after".to_vec(), Value::Integer(2)).unwrap();

    let e = e.reopen();
    assert_eq!(e.get_value(b"ghost").unwrap(), None, "uncommitted entry must never be resurrected");
    assert_eq!(e.get_value(b"committed").unwrap(), Some(Value::Integer(1)));
    assert_eq!(e.get_value(b"after").unwrap(), Some(Value::Integer(2)));
}

// ---- store ----

#[test]
fn test_keys_iterated_in_sorted_order() {
    let mut e = Engine::new("test_sorted_iteration");
    e.set_value(b"zebra".to_vec(), Value::Integer(3)).unwrap();
    e.set_value(b"apple".to_vec(), Value::Integer(1)).unwrap();
    e.set_value(b"mango".to_vec(), Value::Integer(2)).unwrap();

    assert_eq!(e.keys(), vec![b"apple".to_vec(), b"mango".to_vec(), b"zebra".to_vec()]);
}

#[test]
fn test_sorted_order_survives_recovery() {
    let mut e = Engine::new("test_sorted_recovery");
    e.set_value(b"c".to_vec(), Value::Integer(3)).unwrap();
    e.set_value(b"a".to_vec(), Value::Integer(1)).unwrap();
    e.set_value(b"b".to_vec(), Value::Integer(2)).unwrap();

    let e = e.reopen();
    assert_eq!(e.keys(), vec![b"a".to_vec(), b"b".to_vec(), b"c".to_vec()]);
}

#[test]
fn test_data_survives_flush_and_recovery() {
    let mut e = Engine::new("test_flush_recovery");
    e.set_value(b"z".to_vec(), Value::Integer(26)).unwrap();
    e.set_value(b"a".to_vec(), Value::Integer(1)).unwrap();
    e.set_value(b"m".to_vec(), Value::Integer(13)).unwrap();
    e.flush().unwrap();
    e.set_value(b"f".to_vec(), Value::Integer(6)).unwrap();

    let e = e.reopen();
    assert_eq!(e.get_value(b"a").unwrap(), Some(Value::Integer(1)));
    assert_eq!(e.get_value(b"f").unwrap(), Some(Value::Integer(6)));
    assert_eq!(e.get_value(b"m").unwrap(), Some(Value::Integer(13)));
    assert_eq!(e.get_value(b"z").unwrap(), Some(Value::Integer(26)));
}

#[test]
fn test_set_get_delete() {
    let mut e = Engine::new("test_set_get_delete");

    assert_eq!(e.set_value(b"key".to_vec(), Value::Text("value".to_string())).unwrap(), "Inserted value");
    assert_eq!(e.get_value(b"key").unwrap(), Some(Value::Text("value".to_string())));

    assert_eq!(e.delete_value(b"key").unwrap(), "Deleted value");
    assert_eq!(e.get_value(b"key").unwrap(), None);

    e.delete_value(b"key").unwrap();
    assert_eq!(e.get_value(b"key").unwrap(), None);
}

#[test]
fn test_overwrite_keeps_sorted_order() {
    let mut e = Engine::new("test_overwrite_sorted");
    e.set_value(b"b".to_vec(), Value::Integer(1)).unwrap();
    e.set_value(b"a".to_vec(), Value::Integer(2)).unwrap();
    e.set_value(b"b".to_vec(), Value::Integer(99)).unwrap();

    assert_eq!(e.keys(), vec![b"a".to_vec(), b"b".to_vec()]);
    assert_eq!(e.get_value(b"b").unwrap(), Some(Value::Integer(99)));
}

// ---- sessions ----

#[test]
fn test_lock_released_on_drop() {
    let mut e = Engine::new("lock_lock_released");
    e.set_value(b"k".to_vec(), Value::Integer(1)).unwrap();

    let e = e.reopen();
    assert_eq!(e.get_value(b"k").unwrap(), Some(Value::Integer(1)));
}

#[test]
fn test_different_tables_open_simultaneously() {
    let mut a = Engine::new("lock_table_a");
    let mut b = Engine::new("lock_table_b");

    a.set_value(b"key".to_vec(), Value::Text("from_a".to_string())).unwrap();
    b.set_value(b"key".to_vec(), Value::Text("from_b".to_string())).unwrap();

    assert_eq!(a.get_value(b"key").unwrap(), Some(Value::Text("from_a".to_string())));
    assert_eq!(b.get_value(b"key").unwrap(), Some(Value::Text("from_b".to_string())));
}

#[test]
fn test_lock_reacquired_after_multiple_cycles() {
    let mut e = Engine::new("lock_lock_cycles");
    for i in 0..3 {
        e.set_value(format!("key_{}", i).into_bytes(), Value::Integer(i)).unwrap();
        e = e.reopen();
    }

    assert_eq!(e.get_value(b"key_0").unwrap(), Some(Value::Integer(0)));
    assert_eq!(e.get_value(b"key_1").unwrap(), Some(Value::Integer(1)));
    assert_eq!(e.get_value(b"key_2").unwrap(), Some(Value::Integer(2)));
}

// ---- flush ----

#[test]
fn test_flush_creates_sstable_and_empties_memtable() {
    let mut e = Engine::new("flush_creates_sstable");

    e.set_value(b"a".to_vec(), Value::Integer(1)).unwrap();
    e.set_value(b"b".to_vec(), Value::Integer(2)).unwrap();
    e.flush().unwrap();

    assert_eq!(e.disk.count_sstables(), 1, "flush should write exactly one SSTable");
    assert!(e.store.get_data().is_empty(), "memtable should be empty after flush");

    assert_eq!(e.get_value(b"a").unwrap(), Some(Value::Integer(1)));
    assert_eq!(e.get_value(b"b").unwrap(), Some(Value::Integer(2)));
}

#[test]
fn test_flush_empty_is_noop() {
    let mut e = Engine::new("flush_empty_noop");

    e.flush().unwrap();
    assert_eq!(e.disk.count_sstables(), 0, "flushing nothing must not create a file");
}

#[test]
fn test_memtable_shadows_sstable() {
    let mut e = Engine::new("flush_memtable_shadows");

    e.set_value(b"k".to_vec(), Value::Integer(1)).unwrap();
    e.flush().unwrap();
    e.set_value(b"k".to_vec(), Value::Integer(2)).unwrap();

    assert_eq!(e.get_value(b"k").unwrap(), Some(Value::Integer(2)), "memtable must win over SSTable");
}

#[test]
fn test_newest_sstable_wins() {
    let mut e = Engine::new("flush_newest_wins");
    e.set_value(b"k".to_vec(), Value::Integer(1)).unwrap();
    e.flush().unwrap();
    e.set_value(b"k".to_vec(), Value::Integer(2)).unwrap();
    e.flush().unwrap();
    assert_eq!(e.disk.count_sstables(), 2);

    let e = e.reopen();
    assert_eq!(e.get_value(b"k").unwrap(), Some(Value::Integer(2)), "newest SSTable must win");
}

#[test]
fn test_layered_read_across_many_sstables() {
    let mut e = Engine::new("flush_layered_read");

    e.set_value(b"a".to_vec(), Value::Integer(1)).unwrap();
    e.flush().unwrap();
    e.set_value(b"b".to_vec(), Value::Integer(2)).unwrap();
    e.flush().unwrap();
    e.set_value(b"c".to_vec(), Value::Integer(3)).unwrap();

    assert_eq!(e.get_value(b"a").unwrap(), Some(Value::Integer(1)));
    assert_eq!(e.get_value(b"b").unwrap(), Some(Value::Integer(2)));
    assert_eq!(e.get_value(b"c").unwrap(), Some(Value::Integer(3)));
    assert_eq!(e.get_value(b"missing").unwrap(), None);
}

#[test]
fn test_auto_flush_bounds_memtable() {
    let mut e = Engine::new("flush_auto_flush");
    e.store.set_memtable_budget(64);
    for i in 0..50 {
        e.set_value(format!("key_{:03}", i).into_bytes(), Value::Integer(i)).unwrap();
    }

    assert!(e.disk.count_sstables() >= 1, "small budget must trigger auto-flush");
    assert!(
        e.store.get_data().len() < 50,
        "the memtable must hold far fewer than all entries — memory is bounded"
    );
    assert!(e.store.log_path().ends_with("/wal.log"));

    let e = e.reopen();
    for i in 0..50 {
        assert_eq!(
            e.get_value(format!("key_{:03}", i).as_bytes()).unwrap(),
            Some(Value::Integer(i)),
            "key_{:03} must survive auto-flush and recovery",
            i
        );
    }
}

// ---- compaction ----

#[test]
fn test_compact_merges_into_one() {
    let mut e = Engine::new("compact_merges_into_one");

    for i in 0..4 {
        e.set_value(format!("key_{}", i).into_bytes(), Value::Integer(i)).unwrap();
        e.flush().unwrap();
    }
    assert_eq!(e.disk.count_sstables(), 4);

    e.compact().unwrap();

    assert_eq!(e.disk.count_sstables(), 1, "compaction should leave a single SSTable");
    for i in 0..4 {
        assert_eq!(e.get_value(format!("key_{}", i).as_bytes()).unwrap(), Some(Value::Integer(i)));
    }
}

#[test]
fn test_compact_keeps_newest_value() {
    let mut e = Engine::new("compact_keeps_newest");

    e.set_value(b"k".to_vec(), Value::Integer(1)).unwrap();
    e.flush().unwrap();
    e.set_value(b"k".to_vec(), Value::Integer(2)).unwrap();
    e.flush().unwrap();
    e.set_value(b"k".to_vec(), Value::Integer(3)).unwrap();
    e.flush().unwrap();

    e.compact().unwrap();

    assert_eq!(e.disk.count_sstables(), 1);
    assert_eq!(e.get_value(b"k").unwrap(), Some(Value::Integer(3)), "newest value must win");
}

#[test]
fn test_compact_drops_deleted_keys() {
    let mut e = Engine::new("compact_drops_deleted");

    e.set_value(b"a".to_vec(), Value::Integer(1)).unwrap();
    e.set_value(b"b".to_vec(), Value::Integer(2)).unwrap();
    e.flush().unwrap();
    e.delete_value(b"a").unwrap();
    e.flush().unwrap();

    e.compact().unwrap();

    assert_eq!(e.disk.count_sstables(), 1);
    assert_eq!(e.get_value(b"a").unwrap(), None, "deleted key must not survive compaction");
    assert_eq!(e.get_value(b"b").unwrap(), Some(Value::Integer(2)));
}

#[test]
fn test_compact_all_deleted_leaves_nothing() {
    let mut e = Engine::new("compact_all_deleted");

    e.set_value(b"x".to_vec(), Value::Integer(1)).unwrap();
    e.flush().unwrap();
    e.delete_value(b"x").unwrap();
    e.flush().unwrap();

    e.compact().unwrap();

    assert_eq!(e.disk.count_sstables(), 0, "a fully-deleted table compacts to nothing");
    assert_eq!(e.get_value(b"x").unwrap(), None);
}

#[test]
fn test_compaction_survives_recovery() {
    let mut e = Engine::new("compact_survives_recovery");
    for i in 0..5 {
        e.set_value(format!("key_{}", i).into_bytes(), Value::Integer(i)).unwrap();
        e.flush().unwrap();
    }
    e.compact().unwrap();
    assert_eq!(e.disk.count_sstables(), 1);

    let e = e.reopen();
    for i in 0..5 {
        assert_eq!(e.get_value(format!("key_{}", i).as_bytes()).unwrap(), Some(Value::Integer(i)));
    }
}

#[test]
fn test_auto_compaction_bounds_sstable_count() {
    let mut e = Engine::new("compact_auto_bounds");
    for i in 0..20 {
        e.set_value(format!("key_{:02}", i).into_bytes(), Value::Integer(i)).unwrap();
        e.flush().unwrap();
    }
    assert!(
        e.disk.count_sstables() <= 8,
        "auto-compaction should bound the SSTable count, found {}",
        e.disk.count_sstables()
    );

    let e = e.reopen();
    for i in 0..20 {
        assert_eq!(
            e.get_value(format!("key_{:02}", i).as_bytes()).unwrap(),
            Some(Value::Integer(i)),
            "key_{:02} must survive auto-compaction",
            i
        );
    }
}

// ---- scans ----

#[test]
fn test_scan_all_sorted() {
    let mut e = Engine::new("scan_all_sorted");
    e.set_value(b"c".to_vec(), Value::Integer(3)).unwrap();
    e.set_value(b"a".to_vec(), Value::Integer(1)).unwrap();
    e.set_value(b"b".to_vec(), Value::Integer(2)).unwrap();

    let keys: Vec<Vec<u8>> = e.all().into_iter().map(|(k, _)| k).collect();
    assert_eq!(keys, vec![b"a".to_vec(), b"b".to_vec(), b"c".to_vec()]);
}

#[test]
fn test_scan_merges_memtable_and_sstables() {
    let mut e = Engine::new("scan_merge");

    e.set_value(b"a".to_vec(), Value::Integer(1)).unwrap();
    e.set_value(b"c".to_vec(), Value::Integer(3)).unwrap();
    e.flush().unwrap();
    e.set_value(b"b".to_vec(), Value::Integer(2)).unwrap();

    assert_eq!(
        e.all(),
        vec![
            (b"a".to_vec(), Value::Integer(1)),
            (b"b".to_vec(), Value::Integer(2)),
            (b"c".to_vec(), Value::Integer(3)),
        ]
    );
}

#[test]
fn test_range_is_half_open() {
    let mut e = Engine::new("scan_half_open");
    for k in [b"a", b"b", b"c", b"d"] {
        e.set_value(k.to_vec(), Value::Integer(0)).unwrap();
    }

    let keys: Vec<Vec<u8>> = e
        .scan_range(Bound::Included(b"b".to_vec()), Bound::Excluded(b"d".to_vec()))
        .unwrap()
        .into_iter()
        .map(|(k, _)| k)
        .collect();
    assert_eq!(keys, vec![b"b".to_vec(), b"c".to_vec()]);
}

#[test]
fn test_scan_newest_value_wins() {
    let mut e = Engine::new("scan_newest_wins");

    e.set_value(b"k".to_vec(), Value::Integer(1)).unwrap();
    e.flush().unwrap();
    e.set_value(b"k".to_vec(), Value::Integer(2)).unwrap();

    assert_eq!(e.all(), vec![(b"k".to_vec(), Value::Integer(2))]);
}

#[test]
fn test_scan_excludes_deleted_keys() {
    let mut e = Engine::new("scan_excludes_deleted");

    e.set_value(b"a".to_vec(), Value::Integer(1)).unwrap();
    e.set_value(b"b".to_vec(), Value::Integer(2)).unwrap();
    e.flush().unwrap();
    e.delete_value(b"a").unwrap();

    let keys: Vec<Vec<u8>> = e.all().into_iter().map(|(k, _)| k).collect();
    assert_eq!(keys, vec![b"b".to_vec()], "deleted key must not appear in a scan");
}

// ---- transactions ----

#[test]
fn test_transaction_all_ops_visible_after_commit() {
    let mut e = Engine::new("tx_commit_visible");

    let mut tx = e.store.begin_transaction();
    tx.set_value(b"a".to_vec(), Value::Integer(1));
    tx.set_value(b"b".to_vec(), Value::Integer(2));
    tx.set_value(b"c".to_vec(), Value::Integer(3));
    e.commit(tx).unwrap();

    assert_eq!(e.get_value(b"a").unwrap(), Some(Value::Integer(1)));
    assert_eq!(e.get_value(b"b").unwrap(), Some(Value::Integer(2)));
    assert_eq!(e.get_value(b"c").unwrap(), Some(Value::Integer(3)));
}

#[test]
fn test_transaction_rollback_on_drop() {
    let mut e = Engine::new("tx_rollback");
    e.set_value(b"existing".to_vec(), Value::Integer(99)).unwrap();

    {
        let mut tx = e.store.begin_transaction();
        tx.set_value(b"new_key".to_vec(), Value::Integer(1));
    }

    assert_eq!(e.get_value(b"existing").unwrap(), Some(Value::Integer(99)));
    assert_eq!(e.get_value(b"new_key").unwrap(), None);
}

#[test]
fn test_transaction_survives_recovery() {
    let mut e = Engine::new("tx_tx_recovery");
    let mut tx = e.store.begin_transaction();
    tx.set_value(b"x".to_vec(), Value::Integer(10));
    tx.set_value(b"y".to_vec(), Value::Integer(20));
    tx.set_value(b"z".to_vec(), Value::Integer(30));
    e.commit(tx).unwrap();

    let e = e.reopen();
    assert_eq!(e.get_value(b"x").unwrap(), Some(Value::Integer(10)));
    assert_eq!(e.get_value(b"y").unwrap(), Some(Value::Integer(20)));
    assert_eq!(e.get_value(b"z").unwrap(), Some(Value::Integer(30)));
}

#[test]
fn test_uncommitted_entries_discarded_on_recovery() {
    let mut e = Engine::new("tx_uncommitted");
    let mut tx = e.store.begin_transaction();
    tx.set_value(b"committed".to_vec(), Value::Integer(1));
    e.commit(tx).unwrap();

    let raw_wal = Wal::with_path(e.store.log_path().to_string());
    let entry = Wal::create_put_entry(b"uncommitted".to_vec(), &Value::Integer(2), 99);
    e.disk.log.extend(raw_wal.append(&entry));

    let e = e.reopen();
    assert_eq!(e.get_value(b"committed").unwrap(), Some(Value::Integer(1)));
    assert_eq!(
        e.get_value(b"uncommitted").unwrap(),
        None,
        "uncommitted entry must not survive recovery"
    );
}

#[test]
fn test_transaction_mixed_ops() {
    let mut e = Engine::new("tx_mixed_ops");
    e.set_value(b"to_delete".to_vec(), Value::Text("bye".to_string())).unwrap();
    e.set_value(b"to_keep".to_vec(), Value::Text("hi".to_string())).unwrap();

    let mut tx = e.store.begin_transaction();
    tx.set_value(b"new".to_vec(), Value::Integer(42));
    tx.delete_value(b"to_delete".to_vec());
    e.commit(tx).unwrap();

    assert_eq!(e.get_value(b"new").unwrap(), Some(Value::Integer(42)));
    assert_eq!(e.get_value(b"to_delete").unwrap(), None);
    assert_eq!(e.get_value(b"to_keep").unwrap(), Some(Value::Text("hi".to_string())));
}

#[test]
fn test_read_your_own_writes() {
    let mut e = Engine::new("tx_read_your_writes");
    e.set_value(b"a".to_vec(), Value::Integer(1)).unwrap();

    let mut tx = e.store.begin_transaction();
    tx.set_value(b"b".to_vec(), Value::Integer(2));

    assert_eq!(e.get_in(&tx, b"b").unwrap(), Some(Value::Integer(2)));
    assert_eq!(e.get_in(&tx, b"a").unwrap(), Some(Value::Integer(1)));

    tx.delete_value(b"a".to_vec());
    assert_eq!(e.get_in(&tx, b"a").unwrap(), None);

    e.commit(tx).unwrap();
    assert_eq!(e.get_value(b"a").unwrap(), None);
    assert_eq!(e.get_value(b"b").unwrap(), Some(Value::Integer(2)));
}

#[test]
fn test_explicit_rollback_discards() {
    let mut e = Engine::new("tx_rollback_explicit");
    e.set_value(b"a".to_vec(), Value::Integer(1)).unwrap();

    let mut tx = e.store.begin_transaction();
    tx.set_value(b"a".to_vec(), Value::Integer(99));
    tx.set_value(b"new".to_vec(), Value::Integer(1));
    tx.rollback();

    assert_eq!(e.get_value(b"a").unwrap(), Some(Value::Integer(1)));
    assert_eq!(e.get_value(b"new").unwrap(), None);
}

#[test]
fn test_sequential_transactions() {
    let mut e = Engine::new("tx_sequential");
    for i in 0..5i32 {
        let mut tx = e.store.begin_transaction();
        tx.set_value(format!("key_{}", i).into_bytes(), Value::Integer(i));
        e.commit(tx).unwrap();
    }

    let e = e.reopen();
    for i in 0..5i32 {
        assert_eq!(e.get_value(format!("key_{}", i).as_bytes()).unwrap(), Some(Value::Integer(i)));
    }
}

// ---- timings ----

const N: usize = 1_000;

#[test]
fn perf_sequential_write_throughput() {
    let mut e = Engine::new("perf_write");
    let start = Instant::now();
    for i in 0..N {
        e.set_value(format!("key_{:06}", i).into_bytes(), Value::Integer(i as i32)).unwrap();
    }
    let elapsed = start.elapsed();
    let ops_per_sec = N as f64 / elapsed.as_secs_f64();
    println!("\n[write]      {} writes   in {:>8.2?}  →  {:>10.0} writes/sec", N, elapsed, ops_per_sec);
}

#[test]
fn perf_read_throughput() {
    let mut e = Engine::new("perf_read");
    for i in 0..N {
        e.set_value(format!("key_{:06}", i).into_bytes(), Value::Integer(i as i32)).unwrap();
    }
    let start = Instant::now();
    for i in 0..N {
        let _ = e.get_value(format!("key_{:06}", i).as_bytes());
    }
    let elapsed = start.elapsed();
    let ops_per_sec = N as f64 / elapsed.as_secs_f64();
    println!("\n[read]       {} reads    in {:>8.2?}  →  {:>10.0} reads/sec", N, elapsed, ops_per_sec);
}

#[test]
fn perf_wal_replay_on_open() {
    let mut e = Engine::new("perf_replay");
    for i in 0..N {
        e.set_value(format!("key_{:06}", i).into_bytes(), Value::Integer(i as i32)).unwrap();
    }
    let start = Instant::now();
    let e = e.reopen();
    let elapsed = start.elapsed();
    println!("\n[recovery]   {} entries  in {:>8.2?}  (WAL replay)", e.store.get_data().len(), elapsed);
}

#[test]
fn perf_flush() {
    let mut e = Engine::new("perf_flush");
    for i in 0..N {
        e.set_value(format!("key_{:06}", i).into_bytes(), Value::Integer(i as i32)).unwrap();
    }
    let start = Instant::now();
    e.flush().unwrap();
    let elapsed = start.elapsed();
    println!("\n[flush]      {} entries  in {:>8.2?}  (SSTable write + WAL clear)", N, elapsed);
}

#[test]
fn perf_batched_transaction() {
    let mut e = Engine::new("perf_batch");
    let start = Instant::now();
    let mut tx = e.store.begin_transaction();
    for i in 0..N {
        tx.set_value(format!("key_{:06}", i).into_bytes(), Value::Integer(i as i32));
    }
    e.commit(tx).unwrap();
    let elapsed = start.elapsed();
    println!("\n[batch]      {} writes   in {:>8.2?}", N, elapsed);
}

#[test]
fn perf_mixed_write_read() {
    let mut e = Engine::new("perf_mixed");
    let start = Instant::now();
    for i in 0..N {
        let key = format!("key_{:06}", i).into_bytes();
        e.set_value(key.clone(), Value::Integer(i as i32)).unwrap();
        let _ = e.get_value(&key);
    }
    let elapsed = start.elapsed();
    println!("\n[mixed]      {} write+read pairs in {:>8.2?}", N, elapsed);
}

// ---- databases ----

/// A database and the files of its tables, by directory.
struct Api {
    db: Database,
    disks: BTreeMap<String, Disk>,
}

/// A table that is being used.
struct Handle<'a> {
    table: &'a mut Table,
    disk: &'a mut Disk,
}

impl Api {
    fn new(name: &str) -> Api {
        Api { db: Database::open(format!("./data/api_{name}")), disks: BTreeMap::new() }
    }

    fn reopen(self) -> Api {
        Api { db: Database::open(self.db.root().to_string()), disks: self.disks }
    }

    fn load(&mut self, name: &str, dir: String) -> Result<(), Error> {
        let disk = self.disks.entry(dir.clone()).or_default();
        let store = disk.open(&dir).map_err(Error::from)?;
        self.db.opened(name, Table { store });
        Ok(())
    }

    fn create_table(&mut self, name: &str) -> Result<(), Error> {
        let present = self.disks.contains_key(&self.db.table_dir(name));
        let dir = self.db.create_table(name, present)?;
        self.load(name, dir)
    }

    fn table(&mut self, name: &str) -> Result<Handle<'_>, Error> {
        if self.db.table(name)?.is_none() {
            let dir = self.db.table_dir(name);
            self.load(name, dir)?;
        }
        let dir = self.db.table_dir(name);
        let at = self.db.table(name)?.unwrap();
        Ok(Handle { table: self.db.table_at(at), disk: self.disks.get_mut(&dir).unwrap() })
    }

    fn delete_table(&mut self, name: &str) -> Result<(), Error> {
        let present = self.disks.contains_key(&self.db.table_dir(name));
        let dir = self.db.delete_table(name, present)?;
        self.disks.remove(&dir);
        Ok(())
    }

    fn list_tables(&self) -> Vec<String> {
        let entries = self
            .disks
            .keys()
            .rev()
            .map(|dir| (dir.rsplit('/').next().unwrap().to_string(), true))
            .collect();
        self.db.list_tables(&entries)
    }
}

impl Handle<'_> {
    fn run(&mut self, step: Step) -> Result<(), Error> {
        self.disk.run(&mut self.table.store, step).map_err(Error::from)
    }

    fn put(&mut self, key: &[u8], value: &[u8]) -> Result<(), Error> {
        let step = self.table.put(key, value);
        self.run(step)
    }

    fn delete(&mut self, key: &[u8]) -> Result<(), Error> {
        let step = self.table.delete(key);
        self.run(step)
    }

    fn flush(&mut self) -> Result<(), Error> {
        let step = self.table.store.flush();
        self.run(step)
    }

    fn finish(&self, key: &[u8], found: Progress<Option<Vec<u8>>>) -> Result<Option<Vec<u8>>, Error> {
        let mut found = found;
        loop {
            match found {
                Progress::Done(v) => return Ok(v),
                Progress::Read { table, path, block } => {
                    let bytes = self.disk.read(&path, block);
                    found = self.table.get_from(key, table, block.block, &bytes)?;
                }
            }
        }
    }

    fn get(&self, key: &[u8]) -> Result<Option<Vec<u8>>, Error> {
        self.finish(key, self.table.get(key)?)
    }

    fn get_in(&self, tx: &Txn, key: &[u8]) -> Result<Option<Vec<u8>>, Error> {
        self.finish(key, tx.get(self.table, key)?)
    }

    fn contains(&self, key: &[u8]) -> Result<bool, Error> {
        let mut found = self.table.contains(key)?;
        loop {
            match found {
                Progress::Done(v) => return Ok(v),
                Progress::Read { table, path, block } => {
                    let bytes = self.disk.read(&path, block);
                    found = self.table.contains_from(key, table, block.block, &bytes)?;
                }
            }
        }
    }

    fn put_batch(&mut self, entries: &[(&[u8], &[u8])]) -> Result<(), Error> {
        let step = self.table.put_batch(entries);
        self.run(step)
    }

    fn get_batch(&self, keys: &[&[u8]]) -> Result<Vec<Option<Vec<u8>>>, Error> {
        let mut step = self.table.get_batch(keys)?;
        loop {
            match step {
                BatchStep::Done(found) => return Ok(found),
                BatchStep::Read { table, path, block, batch } => {
                    let bytes = self.disk.read(&path, block);
                    step = self.table.batch_read(batch, table, block.block, &bytes)?;
                }
            }
        }
    }

    fn commit(&mut self, tx: Txn) -> Result<(), Error> {
        let step = tx.commit(self.table);
        self.run(step)
    }

    fn collect(&self, scan: TableScan) -> Result<Vec<(Vec<u8>, Vec<u8>)>, Error> {
        let mut scan = scan;
        loop {
            match scan {
                TableScan::Done(items) => return Ok(items),
                TableScan::ReadBlock { path, block, merge } => {
                    let bytes = self.disk.read(&path, block);
                    scan = self.table.scan_read(merge, &bytes)?;
                }
            }
        }
    }

    fn scan(&self) -> Result<Vec<(Vec<u8>, Vec<u8>)>, Error> {
        self.collect(self.table.scan()?)
    }

    fn range(&self, start: &[u8], end: &[u8]) -> Result<Vec<(Vec<u8>, Vec<u8>)>, Error> {
        self.collect(self.table.range(start, end)?)
    }

    fn scan_prefix(&self, prefix: &[u8]) -> Result<Vec<(Vec<u8>, Vec<u8>)>, Error> {
        self.collect(self.table.scan_prefix(prefix)?)
    }
}

#[test]
fn test_put_get_delete() {
    let mut db = Api::new("put_get_delete");
    let mut t = db.table("kv").unwrap();

    t.put(b"a", b"apple").unwrap();
    assert_eq!(t.get(b"a").unwrap(), Some(b"apple".to_vec()));
    assert_eq!(t.get(b"missing").unwrap(), None);

    t.delete(b"a").unwrap();
    assert_eq!(t.get(b"a").unwrap(), None);
    t.delete(b"a").unwrap();
}

#[test]
fn test_overwrite() {
    let mut db = Api::new("overwrite");
    let mut t = db.table("kv").unwrap();

    t.put(b"k", b"one").unwrap();
    t.put(b"k", b"two").unwrap();
    assert_eq!(t.get(b"k").unwrap(), Some(b"two".to_vec()));
}

#[test]
fn test_arbitrary_byte_values() {
    let mut db = Api::new("byte_values");
    let mut t = db.table("kv").unwrap();

    let binary: &[u8] = &[0u8, 255, 1, 254, 0, 42];
    t.put(b"blob", binary).unwrap();
    assert_eq!(t.get(b"blob").unwrap(), Some(binary.to_vec()));

    t.put(b"empty", b"").unwrap();
    assert_eq!(t.get(b"empty").unwrap(), Some(Vec::new()));
}

#[test]
fn test_contains() {
    let mut db = Api::new("contains");
    let mut t = db.table("kv").unwrap();

    t.put(b"here", b"1").unwrap();
    assert!(t.contains(b"here").unwrap());
    assert!(!t.contains(b"nope").unwrap());
}

#[test]
fn test_put_batch_is_atomic_and_get_batch() {
    let mut db = Api::new("batch");
    let mut t = db.table("kv").unwrap();

    t.put_batch(&[(b"k1", b"v1"), (b"k2", b"v2"), (b"k3", b"v3")]).unwrap();

    let got = t.get_batch(&[b"k1", b"missing", b"k3"]).unwrap();
    assert_eq!(got, vec![Some(b"v1".to_vec()), None, Some(b"v3".to_vec())]);
}

#[test]
fn test_arbitrary_byte_keys() {
    let mut db = Api::new("byte_keys");
    let mut t = db.table("kv").unwrap();

    let binary_key: &[u8] = &[0xff, 0x00, 0xfe, 42];
    t.put(binary_key, b"value").unwrap();
    assert_eq!(t.get(binary_key).unwrap(), Some(b"value".to_vec()));
    assert!(t.contains(binary_key).unwrap());
}

#[test]
fn test_table_management() {
    let mut db = Api::new("tables");

    db.create_table("users").unwrap();
    db.create_table("orders").unwrap();

    assert!(matches!(db.create_table("users"), Err(Error::TableExists(_))));

    let mut tables = db.list_tables();
    tables.sort();
    assert_eq!(tables, vec!["orders".to_string(), "users".to_string()]);

    db.delete_table("orders").unwrap();
    assert_eq!(db.list_tables(), vec!["users".to_string()]);
    assert!(matches!(db.delete_table("orders"), Err(Error::TableNotFound(_))));
}

#[test]
fn test_invalid_table_name_is_rejected() {
    let mut db = Api::new("bad_table");

    assert!(matches!(db.table(""), Err(Error::InvalidTableName(_))));
    assert!(matches!(db.table("a/b"), Err(Error::InvalidTableName(_))));
    assert!(matches!(db.table(".."), Err(Error::InvalidTableName(_))));
}

#[test]
fn test_scan_range_and_prefix() {
    let mut db = Api::new("scan");
    let mut t = db.table("kv").unwrap();

    t.put_batch(&[
        (b"user:1", b"alice"),
        (b"user:2", b"bob"),
        (b"user:3", b"carol"),
        (b"post:1", b"hello"),
    ])
    .unwrap();

    let all: Vec<Vec<u8>> = t.scan().unwrap().into_iter().map(|(k, _)| k).collect();
    assert_eq!(
        all,
        vec![b"post:1".to_vec(), b"user:1".to_vec(), b"user:2".to_vec(), b"user:3".to_vec()]
    );

    let users = t.scan_prefix(b"user:").unwrap();
    assert_eq!(
        users,
        vec![
            (b"user:1".to_vec(), b"alice".to_vec()),
            (b"user:2".to_vec(), b"bob".to_vec()),
            (b"user:3".to_vec(), b"carol".to_vec()),
        ]
    );

    let mid: Vec<Vec<u8>> =
        t.range(b"user:1", b"user:3").unwrap().into_iter().map(|(k, _)| k).collect();
    assert_eq!(mid, vec![b"user:1".to_vec(), b"user:2".to_vec()]);
}

#[test]
fn test_transaction_read_your_writes_then_commit() {
    let mut db = Api::new("txn_commit");
    let mut t = db.table("kv").unwrap();
    t.put(b"a", b"1").unwrap();

    let mut tx = t.table.transaction();
    tx.put(b"b", b"2");
    assert_eq!(t.get_in(&tx, b"b").unwrap(), Some(b"2".to_vec()));
    assert_eq!(t.get_in(&tx, b"a").unwrap(), Some(b"1".to_vec()));
    tx.delete(b"a");
    assert_eq!(t.get_in(&tx, b"a").unwrap(), None);
    t.commit(tx).unwrap();

    assert_eq!(t.get(b"a").unwrap(), None);
    assert_eq!(t.get(b"b").unwrap(), Some(b"2".to_vec()));
}

#[test]
fn test_transaction_rollback() {
    let mut db = Api::new("txn_rollback");
    let mut t = db.table("kv").unwrap();
    t.put(b"a", b"1").unwrap();

    let mut tx = t.table.transaction();
    tx.put(b"a", b"changed");
    tx.put(b"new", b"x");
    tx.rollback();

    assert_eq!(t.get(b"a").unwrap(), Some(b"1".to_vec()));
    assert_eq!(t.get(b"new").unwrap(), None);
}

#[test]
fn test_data_persists_across_reopen() {
    let mut db = Api::new("persist");
    db.table("kv").unwrap().put(b"durable", b"yes").unwrap();

    let mut db = db.reopen();
    let t = db.table("kv").unwrap();
    assert_eq!(t.get(b"durable").unwrap(), Some(b"yes".to_vec()));
}

#[test]
fn test_separate_tables_are_independent() {
    let mut db = Api::new("independent");

    db.table("a").unwrap().put(b"k", b"from_a").unwrap();
    db.table("b").unwrap().put(b"k", b"from_b").unwrap();

    assert_eq!(db.table("a").unwrap().get(b"k").unwrap(), Some(b"from_a".to_vec()));
    assert_eq!(db.table("b").unwrap().get(b"k").unwrap(), Some(b"from_b".to_vec()));
}

// ---- crashes ----

/// Runs an operation and gives the files as they stand before each of its steps, and at the end.
fn snapshots(e: &mut Engine, step: Step) -> Vec<Disk> {
    let mut seen = vec![e.disk.clone()];
    let mut next = Some(step);
    while let Some(step) = next {
        next = e.disk.perform(&mut e.store, step).unwrap();
        seen.push(e.disk.clone());
    }
    seen
}

fn contents(disk: &Disk, dir: &str) -> Vec<(Vec<u8>, Value)> {
    let mut disk = disk.clone();
    let store = disk.open(dir).unwrap();
    Engine { store, disk, dir: dir.to_string() }.all()
}

#[test]
fn a_transaction_that_is_cut_anywhere_is_all_or_nothing() {
    let mut e = Engine::new("cut");
    e.set_value(b"a".to_vec(), Value::Integer(1)).unwrap();
    let before = e.disk.log.len();
    let old = e.all();

    let mut tx = e.store.begin_transaction();
    tx.set_value(b"a".to_vec(), Value::Integer(2));
    tx.set_value(b"b".to_vec(), Value::Text("two".to_string()));
    tx.delete_value(b"c".to_vec());
    e.commit(tx).unwrap();
    let new = e.all();
    assert_ne!(old, new);

    for n in before..=e.disk.log.len() {
        let mut disk = e.disk.clone();
        disk.log.truncate(n);
        let expected = if n == e.disk.log.len() { &new } else { &old };
        assert_eq!(&contents(&disk, &e.dir), expected, "cut at {n}");
    }
}

#[test]
fn a_crash_between_the_steps_of_a_flush_costs_nothing() {
    let mut e = Engine::new("flush_crash");
    e.set_value(b"a".to_vec(), Value::Integer(1)).unwrap();
    e.flush().unwrap();
    e.set_value(b"a".to_vec(), Value::Integer(2)).unwrap();
    e.delete_value(b"b").unwrap();
    e.set_value(b"c".to_vec(), Value::Boolean(true)).unwrap();
    let expected = e.all();
    let step = e.store.flush();
    let seen = snapshots(&mut e, step);
    assert_eq!(seen.len(), 4);
    for disk in &seen {
        assert_eq!(contents(disk, &e.dir), expected);
    }
    assert_eq!(e.all(), expected);
    assert!(e.store.get_data().is_empty());
}

#[test]
fn a_crash_between_the_steps_of_a_compaction_costs_nothing() {
    let mut e = Engine::new("compact_crash");
    for i in 0..5 {
        e.set_value(format!("k{i}").into_bytes(), Value::Integer(i)).unwrap();
        e.set_value(b"k0".to_vec(), Value::Integer(100 + i)).unwrap();
        e.delete_value(format!("k{}", i / 2).as_bytes()).unwrap();
        e.flush().unwrap();
    }
    e.set_value(b"m".to_vec(), Value::Integer(7)).unwrap();
    let expected = e.all();
    let step = e.store.compact();
    let seen = snapshots(&mut e, step);
    assert!(seen.len() >= 7);
    for disk in &seen {
        assert_eq!(contents(disk, &e.dir), expected);
    }
    assert_eq!(e.disk.count_sstables(), 1);
    assert_eq!(e.all(), expected);
    assert_eq!(e.reopen().all(), expected);
}

#[test]
fn files_are_removed_oldest_first() {
    let mut e = Engine::new("removal_order");
    for i in 0..3 {
        e.set_value(b"k".to_vec(), Value::Integer(i)).unwrap();
        e.flush().unwrap();
    }
    let mut next = Some(e.store.compact());
    while let Some(step) = next {
        if let Step::Remove { paths } = &step {
            let expected: Vec<String> =
                (1..=3).map(|i| format!("./data/removal_order/sstable_{i}.sst")).collect();
            assert_eq!(paths, &expected);
            assert_eq!(e.disk.count_sstables(), 4);
        }
        next = e.disk.perform(&mut e.store, step).unwrap();
    }
    assert_eq!(e.disk.count_sstables(), 1);
    assert_eq!(e.get_value(b"k").unwrap(), Some(Value::Integer(2)));
}

#[test]
fn a_deleted_key_stays_deleted_however_many_files_go() {
    for removable in 0..=2 {
        let mut e = Engine::new("stays_deleted");
        e.set_value(b"x".to_vec(), Value::Integer(1)).unwrap();
        e.flush().unwrap();
        e.delete_value(b"x").unwrap();
        e.set_value(b"y".to_vec(), Value::Integer(2)).unwrap();
        e.flush().unwrap();
        e.disk.removable = Some(removable);
        e.compact().unwrap();
        assert_eq!(e.disk.count_sstables(), 3 - removable);
        let expected = vec![(b"y".to_vec(), Value::Integer(2))];
        assert_eq!(e.all(), expected);
        assert_eq!(e.get_value(b"x").unwrap(), None);

        let mut e = e.reopen();
        assert_eq!(e.get_value(b"x").unwrap(), None);
        assert_eq!(e.get_value(b"y").unwrap(), Some(Value::Integer(2)));

        // What could not be removed is merged again, and goes when it can.
        e.disk.removable = None;
        e.compact().unwrap();
        assert_eq!(e.disk.count_sstables(), 1);
        assert_eq!(e.all(), expected);
        assert_eq!(e.reopen().all(), expected);
    }
}

#[test]
fn files_that_stay_are_shadowed_by_later_compactions_too() {
    let mut e = Engine::new("stale");
    e.disk.removable = Some(0);
    e.set_value(b"y".to_vec(), Value::Integer(1)).unwrap();
    e.flush().unwrap();
    e.set_value(b"z".to_vec(), Value::Integer(1)).unwrap();
    e.flush().unwrap();
    e.compact().unwrap();
    assert_eq!(e.disk.count_sstables(), 3);

    e.delete_value(b"y").unwrap();
    e.flush().unwrap();
    let step = e.store.compact();
    let mut next = Some(step);
    while let Some(step) = next {
        if let Step::Remove { paths } = &step {
            let expected: Vec<String> =
                (1..=4).map(|i| format!("./data/stale/sstable_{i}.sst")).collect();
            assert_eq!(paths, &expected);
        }
        next = e.disk.perform(&mut e.store, step).unwrap();
    }
    let expected = vec![(b"z".to_vec(), Value::Integer(1))];
    for gone in 0..=4 {
        let mut disk = e.disk.clone();
        for i in 1..=gone {
            disk.files.remove(&format!("./data/stale/sstable_{i}.sst"));
        }
        assert_eq!(contents(&disk, &e.dir), expected);
    }
    assert_eq!(e.all(), expected);
}

#[test]
fn a_flush_leaves_one_table_more_or_one() {
    let mut e = Engine::new("flush_whole");
    for n in 0..20 {
        e.flush().unwrap();
        let before = e.disk.count_sstables();
        e.set_value(format!("k{n}").into_bytes(), Value::Integer(n)).unwrap();
        let all = e.all();
        e.flush().unwrap();
        assert!(e.store.get_data().is_empty());
        assert!(e.disk.log.is_empty());
        assert_eq!(e.disk.count_sstables(), if before + 1 > 8 { 1 } else { before + 1 });
        assert_eq!(e.all(), all);
    }
}

#[test]
fn a_deleted_table_is_gone_as_a_whole() {
    let mut api = Api::new("deleted");
    for name in ["b", "a", "c"] {
        api.table(name).unwrap().put(b"k", name.as_bytes()).unwrap();
    }
    api.table("b").unwrap().flush().unwrap();
    assert!(matches!(api.delete_table("x"), Err(Error::TableNotFound(n)) if n == "x"));
    assert_eq!(api.list_tables(), ["a", "b", "c"]);
    api.delete_table("b").unwrap();
    assert_eq!(api.list_tables(), ["a", "c"]);
    assert!(matches!(api.delete_table("b"), Err(Error::TableNotFound(n)) if n == "b"));
    assert!(api.table("b").unwrap().scan().unwrap().is_empty());
    assert_eq!(api.table("a").unwrap().get(b"k").unwrap(), Some(b"a".to_vec()));
    assert_eq!(api.table("c").unwrap().get(b"k").unwrap(), Some(b"c".to_vec()));
}

#[test]
fn all_deleted_keys_stay_deleted_however_many_files_go() {
    for removable in 0..=3 {
        let mut e = Engine::new("all_deleted");
        e.set_value(b"x".to_vec(), Value::Integer(1)).unwrap();
        e.flush().unwrap();
        e.set_value(b"x".to_vec(), Value::Integer(2)).unwrap();
        e.flush().unwrap();
        e.delete_value(b"x").unwrap();
        e.flush().unwrap();
        e.disk.removable = Some(removable);
        e.compact().unwrap();
        assert_eq!(e.disk.count_sstables(), 3 - removable);
        assert!(e.all().is_empty());
        // A later compaction of what is left does not bring the key back either.
        e.compact().unwrap();
        assert!(e.all().is_empty());
        assert!(e.reopen().all().is_empty());
    }
}

/// Performs the steps of an operation up to the `n`-th, which fails with `reached` of its bytes in
/// the log, and takes the commit back.
fn fail_at(e: &mut Engine, first: Step, n: usize, reached: usize) {
    let mut step = first;
    for _ in 0..n {
        step = e.disk.perform(&mut e.store, step).unwrap().unwrap();
    }
    match step {
        Step::Append { bytes, .. } | Step::Commit { bytes, .. } => {
            e.disk.log.extend(&bytes[..reached.min(bytes.len())]);
        }
        _ => panic!("not a step of a commit"),
    }
    let step = e.store.commit_failed();
    e.disk.run(&mut e.store, step).unwrap();
}

#[test]
fn nothing_of_a_failed_commit_lands() {
    for n in 0..=2 {
        for reached in [0, 1, 9, usize::MAX] {
            let mut e = Engine::new("failed");
            e.set_value(b"old".to_vec(), Value::Integer(7)).unwrap();
            let log = e.disk.log.clone();
            let mut tx = e.store.begin_transaction();
            tx.set_value(b"a".to_vec(), Value::Integer(1));
            tx.set_value(b"c".to_vec(), Value::Integer(3));
            let step = tx.commit(&mut e.store);
            fail_at(&mut e, step, n, reached);
            assert_eq!(e.disk.log, log);
            assert_eq!(e.get_value(b"a").unwrap(), None);

            e.set_value(b"b".to_vec(), Value::Integer(2)).unwrap();
            let expected = vec![
                (b"b".to_vec(), Value::Integer(2)),
                (b"old".to_vec(), Value::Integer(7)),
            ];
            assert_eq!(e.all(), expected);
            let e = e.reopen();
            assert_eq!(e.get_value(b"a").unwrap(), None);
            assert_eq!(e.get_value(b"c").unwrap(), None);
            assert_eq!(e.all(), expected);
        }
    }
}

#[test]
fn the_log_is_cut_to_its_last_commit() {
    let mut e = Engine::new("cut_log");
    let len = |e: &Engine| match e.store.commit_failed() {
        Step::CutLog { len } => len as usize,
        _ => panic!("not a cut"),
    };
    assert_eq!(len(&e), 0);
    e.set_value(b"a".to_vec(), Value::Integer(1)).unwrap();
    assert_eq!(len(&e), e.disk.log.len());
    e.delete_value(b"a").unwrap();
    assert_eq!(len(&e), e.disk.log.len());
    // Recovery takes the length from the log, without its uncommitted tail.
    let committed = e.disk.log.len();
    e.disk.log.extend([0, 0, 0]);
    let mut e = e.reopen();
    assert_eq!(len(&e), committed);
    assert_eq!(e.disk.log.len(), committed);
    e.flush().unwrap();
    assert_eq!(len(&e), 0);
    e.set_value(b"b".to_vec(), Value::Integer(2)).unwrap();
    assert_eq!(len(&e), e.disk.log.len());
}

#[test]
fn the_last_write_wins_over_any_history() {
    let mut e = Engine::new("history");
    let mut expected: BTreeMap<Vec<u8>, Value> = BTreeMap::new();
    let mut seed: u32 = 12345;
    for round in 0..400 {
        seed = seed.wrapping_mul(1664525).wrapping_add(1013904223);
        let key = vec![b'a' + ((seed >> 8) % 7) as u8];
        match (seed >> 16) % 10 {
            0..=3 => {
                e.set_value(key.clone(), Value::Integer(round)).unwrap();
                expected.insert(key, Value::Integer(round));
            }
            4 | 5 => {
                e.delete_value(&key).unwrap();
                expected.remove(&key);
            }
            6 => e.flush().unwrap(),
            7 => {
                e.disk.removable = Some((seed >> 24) as usize % 3);
                e.compact().unwrap();
                e.disk.removable = None;
            }
            8 => {
                let step = e.store.set_value(key, Value::Integer(-1));
                fail_at(&mut e, step, (seed >> 24) as usize % 2, (seed >> 25) as usize % 40);
            }
            _ => e = e.reopen(),
        }
        let all: Vec<(Vec<u8>, Value)> =
            expected.iter().map(|(k, v)| (k.clone(), v.clone())).collect();
        assert_eq!(e.all(), all, "round {round}");
        for k in b'a'..b'h' {
            assert_eq!(e.get_value(&[k]).unwrap(), expected.get(&vec![k]).cloned());
        }
    }
}

#[test]
fn scans_are_the_full_scan_filtered() {
    let mut api = Api::new("filtered");
    let mut t = api.table("t").unwrap();
    for key in [&b"a"[..], b"ab", b"abc", b"b", &[0xff], &[0xff, 0xff], &[0xff, 0xff, 1]] {
        t.put(key, key).unwrap();
    }
    t.flush().unwrap();
    t.put(b"aa", b"new").unwrap();
    t.delete(b"abc").unwrap();
    let all = t.scan().unwrap();
    assert_eq!(all.len(), 7);
    for prefix in [&b""[..], b"a", b"ab", b"c", &[0xff], &[0xff, 0xff]] {
        let expected: Vec<_> = all.iter().filter(|p| p.0.starts_with(prefix)).cloned().collect();
        assert_eq!(t.scan_prefix(prefix).unwrap(), expected);
    }
    let expected: Vec<_> =
        all.iter().filter(|p| p.0 >= b"aa".to_vec() && p.0 < b"b".to_vec()).cloned().collect();
    assert_eq!(t.range(b"aa", b"b").unwrap(), expected);
    assert!(t.range(b"b", b"aa").unwrap().is_empty());
}

// ---- details ----

#[test]
fn the_steps_of_a_write_come_in_order() {
    let mut e = Engine::new("steps");
    e.store.set_memtable_budget(0);
    let step = e.store.set_value(b"k".to_vec(), Value::Integer(1));
    assert_eq!(e.store.sequence(), 1);
    let Step::Append { bytes, commit } = step else { panic!("{step:?}") };
    assert_eq!(bytes.len(), 17);
    let step = e.store.appended(commit);
    assert!(e.store.get_data().is_empty(), "nothing is applied before the commit is durable");
    let Step::Commit { bytes, commit } = step else { panic!("{step:?}") };
    assert_eq!(bytes, Wal::new().write_commit(1));
    let step = e.store.committed(commit);
    let Step::WriteTable { path, bytes, table } = step else { panic!("{step:?}") };
    assert_eq!(path, "./data/steps/sstable_1.sst");
    assert_eq!(Footer::parse(&bytes).unwrap().entry_count, 1);
    assert_eq!(e.store.get_data().len(), 1, "the memtable stays until its table is durable");
    let step = e.store.table_written(table);
    assert!(matches!(step, Step::ClearLog));
    assert_eq!(e.store.next_sstable_id(), 2);
    assert!(e.store.get_data().is_empty());
    assert!(matches!(e.store.log_cleared(), Step::Done));
}

#[test]
fn the_memtable_is_flushed_at_its_budget() {
    let mut e = Engine::new("budget");
    e.store.set_memtable_budget(10);
    // Five bytes of key and four of value.
    e.set_value(b"12345".to_vec(), Value::Integer(1)).unwrap();
    assert_eq!(e.disk.count_sstables(), 0);
    // Replacing the value counts the key once: five and five.
    e.set_value(b"12345".to_vec(), Value::Text("ab".to_string())).unwrap();
    assert_eq!(e.disk.count_sstables(), 0);
    e.set_value(b"12345".to_vec(), Value::Bytes(vec![0; 5])).unwrap();
    assert_eq!(e.disk.count_sstables(), 1);
    // Eight for a number, one for a truth value, none for a deletion.
    e.set_value(b"a".to_vec(), Value::Float(0)).unwrap();
    assert_eq!(e.disk.count_sstables(), 1);
    e.delete_value(b"a").unwrap();
    e.set_value(b"bcdefgh".to_vec(), Value::Boolean(true)).unwrap();
    assert_eq!(e.disk.count_sstables(), 1);
    e.delete_value(b"i").unwrap();
    assert_eq!(e.disk.count_sstables(), 2);
}

#[test]
fn the_default_budget_is_one_mebibyte() {
    assert_eq!(DEFAULT_MEMTABLE_MAX_BYTES, 1 << 20);
    let mut e = Engine::new("default_budget");
    e.set_value(b"k".to_vec(), Value::Bytes(vec![1; (1 << 20) - 2])).unwrap();
    assert_eq!(e.disk.count_sstables(), 0);
    e.set_value(b"k".to_vec(), Value::Bytes(vec![2; (1 << 20) - 1])).unwrap();
    assert_eq!(e.disk.count_sstables(), 1);
    assert_eq!(e.get_value(b"k").unwrap(), Some(Value::Bytes(vec![2; (1 << 20) - 1])));
}

#[test]
fn compacting_needs_two_tables() {
    let mut e = Engine::new("compact_one");
    assert!(matches!(e.store.compact(), Step::Done));
    e.set_value(b"a".to_vec(), Value::Integer(1)).unwrap();
    e.flush().unwrap();
    assert!(matches!(e.store.compact(), Step::Done));
    assert_eq!(e.disk.count_sstables(), 1);
}

#[test]
fn table_files_are_numbered_upwards() {
    let mut e = Engine::new("numbers");
    for i in 0..11 {
        e.set_value(b"k".to_vec(), Value::Integer(i)).unwrap();
        e.flush().unwrap();
    }
    // The ninth flush compacts into number ten, then come eleven and twelve.
    let names: Vec<&str> = e.disk.files.keys().map(|p| p.rsplit('/').next().unwrap()).collect();
    assert_eq!(names, vec!["sstable_10.sst", "sstable_11.sst", "sstable_12.sst"]);
    assert_eq!(e.store.next_sstable_id(), 13);
    let e = e.reopen();
    assert_eq!(e.store.next_sstable_id(), 13);
    assert_eq!(e.get_value(b"k").unwrap(), Some(Value::Integer(10)));
}

#[test]
fn table_numbers_are_read_from_names() {
    assert_eq!(sstable_id_from_name("sstable_7.sst"), Some(7));
    assert_eq!(sstable_id_from_name("sstable_007.sst"), Some(7));
    assert_eq!(sstable_id_from_name("sstable_+7.sst"), Some(7));
    assert_eq!(sstable_id_from_name("sstable_18446744073709551615.sst"), Some(u64::MAX));
    assert_eq!(sstable_id_from_name("sstable_18446744073709551616.sst"), None);
    assert_eq!(sstable_id_from_name("sstable_.sst"), None);
    assert_eq!(sstable_id_from_name("sstable_+.sst"), None);
    assert_eq!(sstable_id_from_name("sstable_-1.sst"), None);
    assert_eq!(sstable_id_from_name("sstable_1x.sst"), None);
    assert_eq!(sstable_id_from_name("sstable_1.tmp"), None);
    assert_eq!(sstable_id_from_name("sstable.sst"), None);
    assert_eq!(sstable_id_from_name("wal.log"), None);
    assert_eq!(sstable_id_from_name(""), None);
}

#[test]
fn named_tables_live_under_data() {
    let store = Store::open_table("users", Vec::new());
    assert_eq!(Store::table_dir("users"), "./data/users");
    assert_eq!(store.log_path(), "./data/users/wal.log");
    assert_eq!(store.sequence(), 0);
    assert_eq!(store.next_sstable_id(), 1);
}

#[test]
fn a_replayed_value_without_a_kind_is_an_error() {
    let mut disk = Disk::default();
    disk.log.extend([0, 0, 0, 0, 0, 0, 0, 5, 0x12, 1, b'k', 0x1a, 0]);
    disk.log.extend(Wal::new().write_commit(1));
    match disk.open("d") {
        Err(AppError::DecodeError(m)) => assert_eq!(m, "value message has no kind set"),
        other => panic!("{other:?}"),
    }
    // A put without a value changes nothing but the sequence number.
    let mut disk = Disk::default();
    disk.log.extend([0, 0, 0, 0, 0, 0, 0, 5, 0x12, 1, b'k', 0x20, 9]);
    disk.log.extend(Wal::new().write_commit(1));
    let store = disk.open("d").unwrap();
    assert!(store.get_data().is_empty());
    assert_eq!(store.sequence(), 9);
}

#[test]
fn corruption_reaches_every_reader() {
    let mut e = Engine::new("corrupt");
    e.set_value(b"a".to_vec(), Value::Integer(1)).unwrap();
    e.flush().unwrap();
    e.set_value(b"b".to_vec(), Value::Integer(2)).unwrap();
    e.flush().unwrap();
    e.disk.files.get_mut("./data/corrupt/sstable_1.sst").unwrap()[5] ^= 1;
    let text = "SSTable block CRC mismatch at offset 0";
    assert!(matches!(e.get_value(b"a"), Err(AppError::DecodeError(m)) if m == text));
    assert_eq!(e.get_value(b"b").unwrap(), Some(Value::Integer(2)));
    let all = e.scan_range(Bound::Unbounded, Bound::Unbounded);
    assert!(matches!(all, Err(AppError::DecodeError(m)) if m == text));
    // A range that the damaged table cannot meet does not read it.
    let some = e.scan_range(Bound::Excluded(b"a".to_vec()), Bound::Unbounded).unwrap();
    assert_eq!(some, vec![(b"b".to_vec(), Value::Integer(2))]);
    assert!(matches!(e.compact(), Err(AppError::DecodeError(m)) if m == text));
    assert_eq!(e.disk.count_sstables(), 2);
}

#[test]
fn bounds_are_kept_in_memtable_and_tables() {
    let mut e = Engine::new("bounds");
    for k in [b"a", b"c", b"e"] {
        e.set_value(k.to_vec(), Value::Integer(1)).unwrap();
    }
    e.flush().unwrap();
    for k in [b"b", b"d", b"f"] {
        e.set_value(k.to_vec(), Value::Integer(2)).unwrap();
    }
    let keys = |lo: Bound, hi: Bound| -> String {
        let items = e.scan_range(lo, hi).unwrap();
        items.into_iter().map(|(k, _)| k[0] as char).collect()
    };
    let inc = |k: &[u8]| Bound::Included(k.to_vec());
    let exc = |k: &[u8]| Bound::Excluded(k.to_vec());
    assert_eq!(keys(Bound::Unbounded, Bound::Unbounded), "abcdef");
    assert_eq!(keys(inc(b"b"), inc(b"e")), "bcde");
    assert_eq!(keys(exc(b"b"), exc(b"e")), "cd");
    assert_eq!(keys(exc(b"c"), Bound::Unbounded), "def");
    assert_eq!(keys(Bound::Unbounded, inc(b"b")), "ab");
    assert_eq!(keys(inc(b"c"), exc(b"c")), "");
    assert_eq!(keys(inc(b"c"), inc(b"c")), "c");
    assert_eq!(keys(inc(b"g"), Bound::Unbounded), "");
    assert_eq!(keys(inc(b"c"), exc(b"a")), "");
    assert_eq!(keys(inc(b"d"), inc(b"b")), "");
    assert_eq!(keys(exc(b"c"), exc(b"c")), "");
}

#[test]
fn prefixes_end_before_their_successor() {
    assert_eq!(prefix_upper_bound(b"user:"), Some(b"user;".to_vec()));
    assert_eq!(prefix_upper_bound(&[1, 0xff]), Some(vec![2]));
    assert_eq!(prefix_upper_bound(&[0xff, 0xff]), None);
    assert_eq!(prefix_upper_bound(b""), None);

    let mut db = Api::new("prefixes");
    let mut t = db.table("kv").unwrap();
    for key in [&[1u8, 0xff][..], &[1, 0xff, 0], &[2], &[0xff], &[0xff, 0xff, 1], &[1]] {
        t.put(key, b"v").unwrap();
    }
    t.flush().unwrap();
    let keys = |p: &[u8]| t.scan_prefix(p).unwrap().into_iter().map(|(k, _)| k).collect::<Vec<_>>();
    assert_eq!(keys(&[1, 0xff]), vec![vec![1, 0xff], vec![1, 0xff, 0]]);
    assert_eq!(keys(&[0xff]), vec![vec![0xff], vec![0xff, 0xff, 1]]);
    assert_eq!(keys(&[]).len(), 6);
    assert_eq!(keys(&[3]).len(), 0);
}

#[test]
fn flushed_tables_are_read_through_the_interface() {
    let mut db = Api::new("flushed");
    let mut t = db.table("kv").unwrap();
    t.put_batch(&[(b"a", b"1"), (b"b", b"2"), (b"a", b"3")]).unwrap();
    t.flush().unwrap();
    t.put(b"c", b"4").unwrap();
    t.flush().unwrap();
    t.delete(b"b").unwrap();
    assert_eq!(t.get(b"a").unwrap(), Some(b"3".to_vec()));
    assert!(t.contains(b"c").unwrap());
    assert!(!t.contains(b"b").unwrap());
    let got = t.get_batch(&[b"c", b"b", b"a", b"zz"]).unwrap();
    assert_eq!(got, vec![Some(b"4".to_vec()), None, Some(b"3".to_vec()), None]);
    assert_eq!(
        t.scan().unwrap(),
        vec![(b"a".to_vec(), b"3".to_vec()), (b"c".to_vec(), b"4".to_vec())]
    );
    let mut tx = t.table.transaction();
    tx.put(b"a", b"5");
    assert_eq!(t.get_in(&tx, b"c").unwrap(), Some(b"4".to_vec()));
    assert_eq!(t.get_in(&tx, b"a").unwrap(), Some(b"5".to_vec()));
    t.commit(tx).unwrap();
    assert_eq!(t.get(b"a").unwrap(), Some(b"5".to_vec()));
    // An empty batch and an empty transaction write nothing.
    let log = t.disk.log.len();
    t.put_batch(&[]).unwrap();
    let tx = t.table.transaction();
    t.commit(tx).unwrap();
    assert_eq!(t.disk.log.len(), log);
}

#[test]
fn values_that_are_not_bytes_are_unexpected() {
    let mut db = Api::new("unexpected");
    let mut t = db.table("kv").unwrap();
    let step = t.table.store.set_value(b"n".to_vec(), Value::Integer(1));
    t.run(step).unwrap();
    assert!(matches!(t.get(b"n"), Err(Error::UnexpectedValue)));
    assert!(matches!(t.contains(b"n"), Err(Error::UnexpectedValue)));
    assert!(matches!(t.scan(), Err(Error::UnexpectedValue)));
    assert!(matches!(t.get_batch(&[b"x", b"n"]), Err(Error::UnexpectedValue)));
    t.flush().unwrap();
    assert!(matches!(t.get(b"n"), Err(Error::UnexpectedValue)));
    assert!(matches!(t.scan_prefix(b"n"), Err(Error::UnexpectedValue)));
    assert_eq!(t.range(b"a", b"b").unwrap(), Vec::new());
}

#[test]
fn damage_is_an_internal_error_of_the_interface() {
    let mut db = Api::new("damage");
    let mut t = db.table("kv").unwrap();
    t.put(b"a", b"1").unwrap();
    t.flush().unwrap();
    t.disk.files.values_mut().next().unwrap()[0] ^= 1;
    let text = "SSTable block CRC mismatch at offset 0";
    assert!(matches!(t.get(b"a"), Err(Error::Internal(m)) if m == text));
    assert!(matches!(t.scan(), Err(Error::Internal(m)) if m == text));
    assert!(matches!(t.get_batch(&[b"a"]), Err(Error::Internal(m)) if m == text));
}

#[test]
fn table_names_are_checked() {
    let mut db = Api::new("names");
    for name in ["", "/", "a/b", "a\\b", ".", ".."] {
        assert!(matches!(db.create_table(name), Err(Error::InvalidTableName(n)) if n == name));
        assert!(matches!(db.delete_table(name), Err(Error::InvalidTableName(n)) if n == name));
    }
    for name in ["a", "...", ".a", "a.", "naïve table"] {
        db.create_table(name).unwrap();
    }
    assert!(matches!(db.create_table("a"), Err(Error::TableExists(n)) if n == "a"));
    assert!(matches!(db.delete_table("zz"), Err(Error::TableNotFound(n)) if n == "zz"));
}

#[test]
fn tables_are_listed_by_the_bytes_of_their_names() {
    let db = Database::open("root/".to_string());
    assert_eq!(db.table_dir("t"), "root/t");
    assert_eq!(Database::open("root".to_string()).table_dir("t"), "root/t");
    let entries = vec![
        ("z".to_string(), true),
        ("LOCK".to_string(), false),
        ("é".to_string(), true),
        ("a".to_string(), true),
        ("Z".to_string(), true),
        ("ab".to_string(), true),
    ];
    assert_eq!(db.list_tables(&entries), vec!["Z", "a", "ab", "z", "é"]);
}

#[test]
fn errors_are_worded_like_this() {
    assert_eq!(Error::Io("m".to_string()).message(), "io error: m");
    assert_eq!(Error::InvalidTableName("n".to_string()).message(), "invalid table name: n");
    assert_eq!(Error::TableExists("n".to_string()).message(), "table already exists: n");
    assert_eq!(Error::TableNotFound("n".to_string()).message(), "table not found: n");
    assert_eq!(Error::UnexpectedValue.message(), "stored value was not written as bytes");
    assert_eq!(Error::Internal("m".to_string()).message(), "internal error: m");
    let io = Error::from(AppError::IoError("x".to_string()));
    assert!(matches!(io, Error::Io(m) if m == "x"));
    for e in [
        AppError::DecodeError("x".to_string()),
        AppError::KeyNotFound("x".to_string()),
        AppError::InternalError("x".to_string()),
    ] {
        assert!(matches!(Error::from(e), Error::Internal(m) if m == "x"));
    }
}

#[test]
fn deletions_stay_in_the_memtable_as_markers() {
    let mut e = Engine::new("markers");
    e.delete_value(b"never").unwrap();
    let data = e.store.get_data();
    assert_eq!(data.len(), 1);
    assert_eq!(data.get(b"never"), Some(&Entry::Tombstone));
    assert_eq!(data.get(b"other"), None);
    assert!(e.all().is_empty());
}
