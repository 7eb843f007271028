//! Options of reads and writes.

use vstd::prelude::*;
use crate::bytes::copy_bytes;
use crate::snapshot::Snapshot;

verus! {

/// How an iterator or a read sees the database.
#[derive(Clone, Debug)]
pub struct ReadOptions {
    /// Keys at or above this bound are not visited.
    pub iterate_upper_bound: Option<Vec<u8>>,
    /// After a seek to a key, the cursor may not leave that key's prefix
    /// bucket.
    pub prefix_same_as_start: bool,
    /// Seeks read every run, whatever the prefix extractor says.
    pub total_order_seek: bool,
    /// The snapshot to read through; without one, the latest state is read.
    pub snapshot: Option<Snapshot>,
}

impl ReadOptions {
    /// No bound, no prefix restriction, no snapshot.
    pub fn new() -> (r: ReadOptions)
        ensures
            r.iterate_upper_bound is None,
            !r.prefix_same_as_start,
            !r.total_order_seek,
            r.snapshot is None,
    {
        ReadOptions {
            iterate_upper_bound: None,
            prefix_same_as_start: false,
            total_order_seek: false,
            snapshot: None,
        }
    }

    /// Sets the exclusive upper bound of iteration.
    pub fn set_iterate_upper_bound(&mut self, bound: Vec<u8>)
        ensures
            final(self).iterate_upper_bound == Some(bound),
            final(self).prefix_same_as_start == old(self).prefix_same_as_start,
            final(self).total_order_seek == old(self).total_order_seek,
            final(self).snapshot == old(self).snapshot,
    {
        self.iterate_upper_bound = Some(bound);
    }

    /// The upper bound of iteration; empty if none was set.
    pub fn iterate_upper_bound(&self) -> (b: &[u8])
        ensures
            b@ == (match self.iterate_upper_bound {
                Some(u) => u@,
                None => Seq::<u8>::empty(),
            }),
    {
        match &self.iterate_upper_bound {
            Some(u) => u.as_slice(),
            None => &[],
        }
    }

    /// Keeps the cursor inside the prefix bucket of the key that was sought.
    pub fn set_prefix_same_as_start(&mut self, v: bool)
        ensures
            final(self).prefix_same_as_start == v,
            final(self).iterate_upper_bound == old(self).iterate_upper_bound,
            final(self).total_order_seek == old(self).total_order_seek,
            final(self).snapshot == old(self).snapshot,
    {
        self.prefix_same_as_start = v;
    }

    /// Makes seeks read every run.
    pub fn set_total_order_seek(&mut self, v: bool)
        ensures
            final(self).total_order_seek == v,
            final(self).iterate_upper_bound == old(self).iterate_upper_bound,
            final(self).prefix_same_as_start == old(self).prefix_same_as_start,
            final(self).snapshot == old(self).snapshot,
    {
        self.total_order_seek = v;
    }

    /// Reads through `snapshot`.
    pub fn set_snapshot(&mut self, snapshot: &Snapshot)
        ensures
            final(self).snapshot == Some(*snapshot),
            final(self).iterate_upper_bound == old(self).iterate_upper_bound,
            final(self).prefix_same_as_start == old(self).prefix_same_as_start,
            final(self).total_order_seek == old(self).total_order_seek,
    {
        self.snapshot = Some(*snapshot);
    }

    /// A copy of these options.
    pub fn duplicate(&self) -> (r: ReadOptions)
        ensures
            r.iterate_upper_bound.deep_view() == self.iterate_upper_bound.deep_view(),
            r.prefix_same_as_start == self.prefix_same_as_start,
            r.total_order_seek == self.total_order_seek,
            r.snapshot == self.snapshot,
    {
        let bound = match &self.iterate_upper_bound {
            Some(u) => {
                let c = copy_bytes(u.as_slice());
                assert(c.deep_view() =~= u.deep_view());
                Some(c)
            },
            None => None,
        };
        ReadOptions {
            iterate_upper_bound: bound,
            prefix_same_as_start: self.prefix_same_as_start,
            total_order_seek: self.total_order_seek,
            snapshot: self.snapshot,
        }
    }
}

/// The options of a database.
#[derive(Clone, Copy, Debug, PartialEq, Eq, Structural)]
pub struct DBOptions {
    /// Opening a path at which no database lies makes one.
    pub create_if_missing: bool,
}

impl DBOptions {
    /// Options that make no database.
    pub fn new() -> (r: DBOptions)
        ensures
            !r.create_if_missing,
    {
        DBOptions { create_if_missing: false }
    }

    /// Lets an open make the database where none lies at the path.
    pub fn create_if_missing(&mut self, create: bool)
        ensures
            final(self).create_if_missing == create,
    {
        self.create_if_missing = create;
    }
}

/// Whether a compaction reads the runs that lie at the deepest level.
#[derive(Clone, Copy, Debug, PartialEq, Eq, Structural)]
pub enum DBBottommostLevelCompaction {
    /// It leaves them alone.
    Skip,
    /// It reads them where the column family has a compaction filter.
    IfHaveCompactionFilter,
    /// It reads them.
    Force,
}

/// The options of a compaction.
#[derive(Clone, Copy, Debug, PartialEq, Eq, Structural)]
pub struct CompactOptions {
    pub bottommost_level_compaction: DBBottommostLevelCompaction,
    /// The level of the run that the compaction writes; where it is
    /// negative, the run is written to the deepest level of the runs read.
    pub target_level: i32,
}

/// The default options of a compaction: runs at the deepest level are read
/// where there is a compaction filter, and the run written stays at the
/// deepest level of the runs read.
pub open spec fn default_compact_options() -> CompactOptions {
    CompactOptions {
        bottommost_level_compaction: DBBottommostLevelCompaction::IfHaveCompactionFilter,
        target_level: -1i32,
    }
}

impl CompactOptions {
    /// The default options.
    pub fn new() -> (r: CompactOptions)
        ensures
            r == default_compact_options(),
    {
        CompactOptions {
            bottommost_level_compaction: DBBottommostLevelCompaction::IfHaveCompactionFilter,
            target_level: -1,
        }
    }

    /// Says whether the runs at the deepest level are read.
    pub fn set_bottommost_level_compaction(&mut self, v: DBBottommostLevelCompaction)
        ensures
            final(self).bottommost_level_compaction == v,
            final(self).target_level == old(self).target_level,
    {
        self.bottommost_level_compaction = v;
    }

    /// Sets the level of the run that the compaction writes.
    pub fn set_target_level(&mut self, level: i32)
        ensures
            final(self).target_level == level,
            final(self).bottommost_level_compaction == old(self).bottommost_level_compaction,
    {
        self.target_level = level;
    }
}

/// How a write is made durable. The engine gives every write its sequence
/// number and its column family, whatever these say.
#[derive(Clone, Copy, Debug, PartialEq, Eq, Structural)]
pub struct WriteOptions {
    pub sync: bool,
    pub disable_wal: bool,
}

impl WriteOptions {
    /// Not synced, logged.
    pub fn new() -> (r: WriteOptions)
        ensures
            !r.sync,
            !r.disable_wal,
    {
        WriteOptions { sync: false, disable_wal: false }
    }

    /// Asks for a write that is synced before the call returns.
    pub fn set_sync(&mut self, sync: bool)
        ensures
            final(self).sync == sync,
            final(self).disable_wal == old(self).disable_wal,
    {
        self.sync = sync;
    }

    /// Leaves the write out of the log.
    pub fn disable_wal(&mut self, disable: bool)
        ensures
            final(self).disable_wal == disable,
            final(self).sync == old(self).sync,
    {
        self.disable_wal = disable;
    }
}

} // verus!
