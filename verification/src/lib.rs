//! FerrumDB: the verified core of an embedded key-value store.

pub mod bloom;
pub mod bounds;
pub mod bytes;
pub mod crc;
pub mod database;
pub mod database_laws;
pub mod decimal;
pub mod entry_map;
pub mod errors;
pub mod format;
pub mod history_laws;
pub mod interface_laws;
pub mod log_laws;
pub mod model;
pub mod names;
pub mod operation_laws;
pub mod proto;
pub mod read_laws;
pub mod sstable;
pub mod store;
pub mod table;
pub mod table_laws;
pub mod transaction;
pub mod txn;
pub mod value;
pub mod value_laws;
pub mod wal;
pub mod wire;
pub mod write_laws;
