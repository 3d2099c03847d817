//! The storage engine and the formats of its files.
use vstd::prelude::*;

pub mod bloom;
pub mod compaction;
pub mod compaction_laws;
pub mod disk_model;
pub mod flush_laws;
pub mod held;
pub mod history_laws;
pub mod read_laws;
pub mod engine;
pub mod error;
pub mod memtable;
pub mod merging;
pub mod operation_laws;
pub mod paths;
pub mod record_map;
pub mod recovery_laws;
pub mod rows;
pub mod sstable;
pub mod steps;
pub mod table_format;
pub mod table_order;
pub mod wal;
pub mod write_laws;

pub use bloom::BloomFilter;
pub use compaction::{CompactionConfig, CompactionReport};
pub use engine::{StorageConfig, StorageEngine, StorageStats};
pub use error::{IoError, IoErrorKind, StorageError};
pub use memtable::{MemTable, ValueRecord};
pub use sstable::{SstableId, SstableMetadata, SstableReader, SstableWriter};
pub use wal::{Wal, WalEntry, WalOp};

verus! {

} // verus!
