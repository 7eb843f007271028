//! A snapshot-isolated, column-family-partitioned key-value engine with
//! ordered iteration, prefix extraction, compaction filtering and merge
//! resolution, verified with Verus.
//!
//! A database ([`DB`]) holds named column families. Every write gets the next
//! sequence number and becomes a version in its column family's table
//! ([`version`]). A reader has a horizon, the last sequence number or that of
//! a snapshot ([`snapshot`]), and sees of each key the versions at or below
//! its horizon ([`read`]): the newest decides, and merge operands are folded
//! by the family's merge operator ([`merge`]). An iterator ([`iterator`])
//! pins a family's versions and ranges over their ordered view ([`view`]),
//! which an upper bound and the runs of a prefix bucket ([`prefix`]) may
//! limit. A flush moves the writes of the memtable to a run; a compaction
//! ([`compaction`], [`range`]) rewrites runs, shows each surviving entry to
//! the family's compaction filter ([`filter`]), and changes nothing of what
//! a pinned snapshot sees. What a database holds while no handle works on it
//! lies in an environment ([`env`]), which also keeps the lock of each
//! database ([`open`]). What holds across these parts is proved in [`laws`].

pub mod bytes;
pub mod compaction;
pub mod db;
pub mod env;
pub mod error;
pub mod family;
pub mod filter;
pub mod iterator;
pub mod laws;
pub mod merge;
pub mod open;
pub mod options;
pub mod prefix;
pub mod range;
pub mod read;
pub mod snapshot;
pub mod titan;
pub mod version;
pub mod view;

pub use crate::bytes::{key_equal, key_less, key_order, KeyOrder};
pub use crate::compaction::{compact_table, CompactionReport};
pub use crate::db::{CFHandle, DB};
pub use crate::env::{Env, Store};
pub use crate::error::Error;
pub use crate::family::{
    ColumnFamilyOptions, FamilyData, FamilyIdentity, MemtableFactory, RunInfo,
};
pub use crate::filter::{CompactionFilter, CompactionFilterDecision, CompactionFilterValueType};
pub use crate::iterator::{DBIterator, SeekKey};
pub use crate::merge::{AppendOperator, MergeOperands, MergeOperator};
pub use crate::options::{
    CompactOptions, DBBottommostLevelCompaction, DBOptions, ReadOptions, WriteOptions,
};
pub use crate::prefix::{FixedPrefixTransform, FixedSuffixTransform, SliceTransform};
pub use crate::read::KeyValue;
pub use crate::snapshot::Snapshot;
pub use crate::titan::{TitanBlobRunMode, TitanDBOptions};
pub use crate::version::{Version, WriteKind};
