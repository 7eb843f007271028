//! The database handle: column families, writes in sequence order, reads at
//! a horizon, snapshots and iterators.

use vstd::prelude::*;
use crate::compaction::{tells, CompactionReport};
use crate::error::Error;
use crate::filter::DecisionView;
use crate::range::{range_compacted, range_offered, range_refusal, task_of};
use crate::env::families_wf;
use crate::family::{
    default_identity, ColumnFamily, ColumnFamilyOptions, DataView, FamilyData, FamilyView,
    IdentityView,
};
use crate::merge::{slice_option_view, MergeOperator};
use crate::prefix::SliceTransform;
use crate::iterator::{DBIterator, IteratorPins};
use crate::options::{default_compact_options, CompactOptions, ReadOptions, WriteOptions};
use crate::read::KeyValueView;
use crate::snapshot::{first_pin, Snapshot, SnapshotList};
use crate::version::{bounded_by, duplicate_table, WriteKind};

verus! {

/// The handle of a column family: the number that the family was given when
/// it was made. It stays the family's own while the database exists; after
/// the family is dropped it names nothing.
#[derive(Clone, Copy, Debug, PartialEq, Eq, Structural)]
pub struct CFHandle {
    id: u64,
}

impl CFHandle {
    /// The number of the column family.
    pub closed spec fn number(&self) -> u64 {
        self.id
    }

    /// The number of the column family.
    pub fn id(&self) -> (n: u64)
        ensures
            n == self.number(),
    {
        self.id
    }
}

/// The name of the column family that calls without a handle go to.
pub open spec fn default_name() -> Seq<char> {
    "default"@
}

/// The values of a list of column families.
pub open spec fn family_views<'a>(families: Seq<ColumnFamily<'a>>) -> Seq<FamilyView<'a>> {
    Seq::new(families.len(), |i: int| families[i]@)
}

/// A column family that holds nothing yet.
pub open spec fn empty_family<'a>(
    name: Seq<char>,
    id: u64,
    identity: IdentityView,
    operator: Option<&'a dyn MergeOperator>,
    transform: Option<&'a dyn SliceTransform>,
    has_filter: bool,
) -> FamilyView<'a> {
    FamilyView {
        data: DataView {
            name: name,
            id: id,
            identity: identity,
            versions: Seq::empty(),
            runs: Seq::empty(),
            memtable_run: 0,
            next_run: 1,
        },
        operator: operator,
        transform: transform,
        has_filter: has_filter,
    }
}

/// The mathematical value of a [`DB`].
pub struct DbView<'a> {
    pub path: Seq<char>,
    /// The handle takes no write.
    pub read_only: bool,
    /// The column families, in the order in which they were made.
    pub families: Seq<FamilyView<'a>>,
    /// The sequence number of the last write.
    pub last_sequence: u64,
    /// The number that the next column family gets.
    pub next_family_id: u64,
    /// The horizons of the snapshots that are pinned.
    pub snapshots: Seq<u64>,
}

impl<'a> DbView<'a> {
    /// What is kept of each column family.
    pub open spec fn data(self) -> Seq<DataView> {
        Seq::new(self.families.len(), |i: int| self.families[i].data)
    }

    /// The column families are well formed, their versions lie at or below
    /// the last sequence number, and no two have the same name or number.
    pub open spec fn wf(self) -> bool {
        families_wf(self.data(), self.last_sequence, self.next_family_id)
    }

    /// The place of the column family with number `id`, if there is one.
    pub open spec fn place_of(self, id: u64) -> Option<int> {
        if exists|i: int| 0 <= i < self.families.len() && (#[trigger] self.families[i]).data.id == id {
            Some(
                choose|i: int|
                    0 <= i < self.families.len() && (#[trigger] self.families[i]).data.id == id,
            )
        } else {
            None
        }
    }

    /// The place of the column family named `name`, if there is one.
    pub open spec fn place_of_name(self, name: Seq<char>) -> Option<int> {
        if exists|i: int|
            0 <= i < self.families.len() && (#[trigger] self.families[i]).data.name == name {
            Some(
                choose|i: int|
                    0 <= i < self.families.len() && (#[trigger] self.families[i]).data.name == name,
            )
        } else {
            None
        }
    }

    /// The number of the column family named `name`, if there is one.
    pub open spec fn id_of_name(self, name: Seq<char>) -> Option<u64> {
        match self.place_of_name(name) {
            Some(i) => Some(self.families[i].data.id),
            None => None,
        }
    }

    /// The names of the column families, in the order in which they were
    /// made.
    pub open spec fn names(self) -> Seq<Seq<char>> {
        Seq::new(self.families.len(), |i: int| self.families[i].data.name)
    }

    /// Why a write of `kind` to the column family with number `id` is
    /// refused, if it is: the handle is read-only, the family does not exist,
    /// the write is a merge and the family has no merge operator, or the
    /// sequence numbers are used up.
    pub open spec fn write_refusal(self, id: u64, kind: WriteKind) -> Option<Error> {
        if self.read_only {
            Some(Error::InvalidArgument)
        } else if self.place_of(id) is None {
            Some(Error::InvalidArgument)
        } else if kind == WriteKind::Merge && self.families[self.place_of(id).unwrap()].operator
            is None {
            Some(Error::InvalidArgument)
        } else if self.last_sequence == u64::MAX {
            Some(Error::IOError)
        } else {
            None
        }
    }

    /// The database after a write to the column family with number `id`: the
    /// write gets the next sequence number, and the family gets a version.
    pub open spec fn written(
        self,
        id: u64,
        key: Seq<u8>,
        kind: WriteKind,
        value: Seq<u8>,
    ) -> DbView<'a> {
        let i = self.place_of(id).unwrap();
        let sequence = (self.last_sequence + 1) as u64;
        let family = self.families[i];
        DbView {
            families: self.families.update(
                i,
                FamilyView { data: family.data.written(key, sequence, kind, value), ..family },
            ),
            last_sequence: sequence,
            ..self
        }
    }

    /// Why a write of `kind` without a handle is refused, if it is: there is
    /// no column family named "default", or the write to it is refused.
    pub open spec fn default_write_refusal(self, kind: WriteKind) -> Option<Error> {
        match self.id_of_name(default_name()) {
            Some(id) => self.write_refusal(id, kind),
            None => Some(Error::InvalidArgument),
        }
    }

    /// Why a column family named `name` with `num_levels` levels cannot be
    /// made, if it cannot: the handle is read-only, the name is taken, the
    /// family would have no level, or the numbers for families are used up.
    pub open spec fn create_refusal(self, name: Seq<char>, num_levels: usize) -> Option<Error> {
        if self.read_only || self.place_of_name(name) is Some || num_levels == 0 {
            Some(Error::InvalidArgument)
        } else if self.next_family_id == u64::MAX {
            Some(Error::IOError)
        } else {
            None
        }
    }

    /// The database with one more column family.
    pub open spec fn created(self, family: FamilyView<'a>) -> DbView<'a> {
        DbView {
            families: self.families.push(family),
            next_family_id: (self.next_family_id + 1) as u64,
            ..self
        }
    }

    /// Whether the column family named `name` cannot be dropped: the handle
    /// is read-only, there is no such family, or it is the default family.
    pub open spec fn drop_refused(self, name: Seq<char>) -> bool {
        self.read_only || self.place_of_name(name) is None || name == default_name()
    }

    /// The database without the column family named `name`.
    pub open spec fn dropped(self, name: Seq<char>) -> DbView<'a> {
        DbView { families: self.families.remove(self.place_of_name(name).unwrap()), ..self }
    }

    /// Why the column family with number `id` cannot be flushed, if it
    /// cannot: the handle is read-only, there is no such family, or no
    /// further run number can be given.
    pub open spec fn flush_refusal(self, id: u64) -> Option<Error> {
        if self.read_only || self.place_of(id) is None {
            Some(Error::InvalidArgument)
        } else {
            let data = self.families[self.place_of(id).unwrap()].data;
            if data.memtable_in_use() && data.next_run == u64::MAX {
                Some(Error::IOError)
            } else {
                None
            }
        }
    }

    /// The database after a flush of the column family with number `id`.
    pub open spec fn flushed(self, id: u64) -> DbView<'a> {
        let i = self.place_of(id).unwrap();
        let family = self.families[i];
        DbView {
            families: self.families.update(i, FamilyView { data: family.data.flushed(), ..family }),
            ..self
        }
    }

    /// Why the column family with number `id` cannot be compacted, if it
    /// cannot: the handle is read-only, there is no such family, or the
    /// family refuses the task.
    pub open spec fn compact_refusal(
        self,
        id: u64,
        options: CompactOptions,
        start: Option<Seq<u8>>,
        end: Option<Seq<u8>>,
    ) -> Option<Error> {
        if self.read_only || self.place_of(id) is None {
            Some(Error::InvalidArgument)
        } else {
            let family = self.families[self.place_of(id).unwrap()];
            range_refusal(family.data, task_of(options, family.has_filter, start, end))
        }
    }

    /// What the compaction of a range of the column family with number `id`
    /// shows to the filter.
    pub open spec fn compaction_offers(
        self,
        id: u64,
        options: CompactOptions,
        start: Option<Seq<u8>>,
        end: Option<Seq<u8>>,
    ) -> Seq<KeyValueView> {
        let family = self.families[self.place_of(id).unwrap()];
        range_offered(family.data, task_of(options, family.has_filter, start, end), self.snapshots)
    }

    /// The database after the compaction of a range of the column family
    /// with number `id`, where the filter decides `choice[k]` about the
    /// version of key `k` that it is shown.
    pub open spec fn range_compacted(
        self,
        id: u64,
        options: CompactOptions,
        start: Option<Seq<u8>>,
        end: Option<Seq<u8>>,
        choice: Map<Seq<u8>, DecisionView>,
    ) -> DbView<'a> {
        let i = self.place_of(id).unwrap();
        let family = self.families[i];
        let task = task_of(options, family.has_filter, start, end);
        DbView {
            families: self.families.update(
                i,
                FamilyView {
                    data: range_compacted(family.data, task, self.snapshots, choice),
                    ..family
                },
            ),
            ..self
        }
    }

    /// The horizon of a read with the given snapshot: the snapshot's, or
    /// without one the last sequence number.
    pub open spec fn horizon(self, snapshot: Option<Snapshot>) -> u64 {
        match snapshot {
            Some(s) => s.horizon(),
            None => self.last_sequence,
        }
    }

    /// What a read at `horizon` sees of `key` in the column family with
    /// number `id`.
    pub open spec fn value_at(self, id: u64, key: Seq<u8>, horizon: u64) -> Option<Seq<u8>> {
        self.families[self.place_of(id).unwrap()].value_at(key, horizon as int)
    }
}

/// An open database.
pub struct DB<'a> {
    pub(crate) path: String,
    pub(crate) read_only: bool,
    pub(crate) families: Vec<ColumnFamily<'a>>,
    pub(crate) last_sequence: u64,
    pub(crate) next_family_id: u64,
    pub(crate) snapshots: SnapshotList,
}

impl<'a> View for DB<'a> {
    type V = DbView<'a>;

    closed spec fn view(&self) -> DbView<'a> {
        DbView {
            path: self.path@,
            read_only: self.read_only,
            families: family_views(self.families@),
            last_sequence: self.last_sequence,
            next_family_id: self.next_family_id,
            snapshots: self.snapshots@,
        }
    }
}

/// In a well-formed database a column family's number finds its place.
pub proof fn lemma_place_of(db: DbView, i: int)
    requires
        db.wf(),
        0 <= i < db.families.len(),
    ensures
        db.place_of(db.families[i].data.id) == Some(i),
        db.place_of_name(db.families[i].data.name) == Some(i),
{
    let id = db.families[i].data.id;
    let j = choose|j: int| 0 <= j < db.families.len() && (#[trigger] db.families[j]).data.id == id;
    let name = db.families[i].data.name;
    let k = choose|k: int|
        0 <= k < db.families.len() && (#[trigger] db.families[k]).data.name == name;
    assert(db.data()[i] == db.families[i].data);
    assert(db.data()[j] == db.families[j].data);
    assert(db.data()[k] == db.families[k].data);
}

impl<'a> DB<'a> {
    /// The database's invariant.
    pub open spec fn wf(&self) -> bool {
        self@.wf()
    }

    /// The place of the column family with number `id`.
    fn find_id(&self, id: u64) -> (r: Option<usize>)
        requires
            self.wf(),
        ensures
            match r {
                Some(i) => self@.place_of(id) == Some(i as int) && i < self.families.len(),
                None => self@.place_of(id) is None,
            },
    {
        let mut i: usize = 0;
        while i < self.families.len()
            invariant
                self.wf(),
                i <= self.families.len(),
                forall|x: int| 0 <= x < i ==> (#[trigger] self@.families[x]).data.id != id,
            decreases self.families.len() - i,
        {
            assert(self@.families[i as int] == self.families[i as int]@);
            if self.families[i].data.id == id {
                proof {
                    lemma_place_of(self@, i as int);
                }
                return Some(i);
            }
            i += 1;
        }
        None
    }

    /// The place of the column family named `name`.
    fn find_name(&self, name: &str) -> (r: Option<usize>)
        requires
            self.wf(),
        ensures
            match r {
                Some(i) => self@.place_of_name(name@) == Some(i as int) && i < self.families.len(),
                None => self@.place_of_name(name@) is None,
            },
    {
        let wanted = name.to_owned();
        let mut i: usize = 0;
        while i < self.families.len()
            invariant
                self.wf(),
                i <= self.families.len(),
                wanted@ == name@,
                forall|x: int| 0 <= x < i ==> (#[trigger] self@.families[x]).data.name != name@,
            decreases self.families.len() - i,
        {
            assert(self@.families[i as int] == self.families[i as int]@);
            if self.families[i].data.name == wanted {
                proof {
                    lemma_place_of(self@, i as int);
                }
                return Some(i);
            }
            i += 1;
        }
        None
    }

    /// The handle of the column family named `name`, if there is one.
    pub fn cf_handle(&self, name: &str) -> (r: Option<CFHandle>)
        requires
            self.wf(),
        ensures
            match r {
                Some(h) => self@.id_of_name(name@) == Some(h.number()),
                None => self@.id_of_name(name@) is None,
            },
    {
        match self.find_name(name) {
            Some(i) => {
                assert(self@.families[i as int] == self.families[i as int]@);
                Some(CFHandle { id: self.families[i].data.id })
            },
            None => None,
        }
    }

    /// The names of the column families, in the order in which they were
    /// made.
    pub fn cf_names(&self) -> (r: Vec<&str>)
        ensures
            r.len() == self@.names().len(),
            forall|i: int| 0 <= i < r.len() ==> (#[trigger] r[i])@ == self@.names()[i],
    {
        let mut r: Vec<&str> = Vec::new();
        let mut i: usize = 0;
        while i < self.families.len()
            invariant
                i <= self.families.len(),
                r.len() == i,
                forall|x: int| 0 <= x < i ==> (#[trigger] r[x])@ == self@.names()[x],
            decreases self.families.len() - i,
        {
            assert(self@.families[i as int] == self.families[i as int]@);
            r.push(self.families[i].data.name.as_str());
            i += 1;
        }
        r
    }

    /// The sequence number of the last write.
    pub fn latest_sequence_number(&self) -> (s: u64)
        ensures
            s == self@.last_sequence,
    {
        self.last_sequence
    }

    /// Writes to the column family with number `id`.
    fn write(&mut self, id: u64, key: &[u8], kind: WriteKind, value: &[u8]) -> (r: Result<
        (),
        Error,
    >)
        requires
            old(self).wf(),
        ensures
            final(self).wf(),
            match r {
                Ok(_) => {
                    &&& old(self)@.write_refusal(id, kind) is None
                    &&& final(self)@ == old(self)@.written(id, key@, kind, value@)
                },
                Err(e) => {
                    &&& old(self)@.write_refusal(id, kind) == Some(e)
                    &&& final(self)@ == old(self)@
                },
            },
    {
        if self.read_only {
            return Err(Error::InvalidArgument);
        }
        let i = match self.find_id(id) {
            Some(i) => i,
            None => {
                return Err(Error::InvalidArgument);
            },
        };
        assert(self@.families[i as int] == self.families[i as int]@);
        if kind == WriteKind::Merge && self.families[i].merge_operator.is_none() {
            return Err(Error::InvalidArgument);
        }
        if self.last_sequence == u64::MAX {
            return Err(Error::IOError);
        }
        let sequence = self.last_sequence + 1;
        proof {
            assert(self@.data()[i as int] == self@.families[i as int].data);
        }
        self.families[i].data.write(key, sequence, kind, value);
        self.last_sequence = sequence;
        proof {
            let before = old(self)@;
            let after = before.written(id, key@, kind, value@);
            assert(self@.families =~= after.families) by {
                assert forall|x: int| 0 <= x < self@.families.len() implies self@.families[x]
                    == after.families[x] by {
                    assert(self@.families[x] == self.families[x]@);
                    assert(before.families[x] == old(self).families[x]@);
                }
            }
            assert(self@ == after);
            assert forall|x: int| 0 <= x < after.data().len() implies (#[trigger] after.data()[x]).wf()
                && bounded_by(after.data()[x].versions, after.last_sequence) && after.data()[x].id
                < after.next_family_id by {
                assert(before.data()[x] == before.families[x].data);
                if x != i {
                    assert(after.data()[x] == before.data()[x]);
                }
            }
            assert forall|x: int, y: int| 0 <= x < y < after.data().len() implies (
            #[trigger] after.data()[x]).name != (#[trigger] after.data()[y]).name
                && after.data()[x].id != after.data()[y].id by {
                assert(before.data()[x].name == after.data()[x].name);
                assert(before.data()[y].name == after.data()[y].name);
                assert(before.data()[x].id == after.data()[x].id);
                assert(before.data()[y].id == after.data()[y].id);
            }
        }
        Ok(())
    }

    /// Sets the value of `key` in the column family `cf`.
    pub fn put_cf(&mut self, cf: CFHandle, key: &[u8], value: &[u8]) -> (r: Result<(), Error>)
        requires
            old(self).wf(),
        ensures
            final(self).wf(),
            match r {
                Ok(_) => {
                    &&& old(self)@.write_refusal(cf.number(), WriteKind::Put) is None
                    &&& final(self)@ == old(self)@.written(cf.number(), key@, WriteKind::Put, value@)
                },
                Err(e) => old(self)@.write_refusal(cf.number(), WriteKind::Put) == Some(e)
                    && final(self)@ == old(self)@,
            },
    {
        self.write(cf.id, key, WriteKind::Put, value)
    }

    /// Removes `key` from the column family `cf`.
    pub fn delete_cf(&mut self, cf: CFHandle, key: &[u8]) -> (r: Result<(), Error>)
        requires
            old(self).wf(),
        ensures
            final(self).wf(),
            match r {
                Ok(_) => {
                    &&& old(self)@.write_refusal(cf.number(), WriteKind::Delete) is None
                    &&& final(self)@ == old(self)@.written(cf.number(), key@, WriteKind::Delete, Seq::empty())
                },
                Err(e) => old(self)@.write_refusal(cf.number(), WriteKind::Delete) == Some(e)
                    && final(self)@ == old(self)@,
            },
    {
        let nothing: Vec<u8> = Vec::new();
        self.write(cf.id, key, WriteKind::Delete, nothing.as_slice())
    }

    /// Adds a merge operand for `key` in the column family `cf`.
    pub fn merge_cf(&mut self, cf: CFHandle, key: &[u8], value: &[u8]) -> (r: Result<(), Error>)
        requires
            old(self).wf(),
        ensures
            final(self).wf(),
            match r {
                Ok(_) => {
                    &&& old(self)@.write_refusal(cf.number(), WriteKind::Merge) is None
                    &&& final(self)@ == old(self)@.written(cf.number(), key@, WriteKind::Merge, value@)
                },
                Err(e) => old(self)@.write_refusal(cf.number(), WriteKind::Merge) == Some(e)
                    && final(self)@ == old(self)@,
            },
    {
        self.write(cf.id, key, WriteKind::Merge, value)
    }

    /// Reads `key` in the column family `cf` at the horizon that the options
    /// give. Fails where the column family does not exist.
    pub fn get_cf_opt(&self, cf: CFHandle, key: &[u8], options: &ReadOptions) -> (r: Result<
        Option<Vec<u8>>,
        Error,
    >)
        requires
            self.wf(),
        ensures
            match r {
                Ok(v) => self@.place_of(cf.number()) is Some && v.deep_view() == self@.value_at(
                    cf.number(),
                    key@,
                    self@.horizon(options.snapshot),
                ),
                Err(e) => self@.place_of(cf.number()) is None && e == Error::InvalidArgument,
            },
    {
        let i = match self.find_id(cf.id) {
            Some(i) => i,
            None => {
                return Err(Error::InvalidArgument);
            },
        };
        let horizon = match options.snapshot {
            Some(s) => s.sequence(),
            None => self.last_sequence,
        };
        proof {
            assert(self@.families[i as int] == self.families[i as int]@);
            assert(self@.data()[i as int] == self@.families[i as int].data);
        }
        match self.families[i].read(key, horizon) {
            Some(kv) => {
                assert(kv.value.deep_view() =~= kv.value@);
                Ok(Some(kv.value))
            },
            None => Ok(None),
        }
    }

    /// Reads the latest value of `key` in the column family `cf`.
    pub fn get_cf(&self, cf: CFHandle, key: &[u8]) -> (r: Result<Option<Vec<u8>>, Error>)
        requires
            self.wf(),
        ensures
            match r {
                Ok(v) => self@.place_of(cf.number()) is Some && v.deep_view() == self@.value_at(
                    cf.number(),
                    key@,
                    self@.last_sequence,
                ),
                Err(e) => self@.place_of(cf.number()) is None && e == Error::InvalidArgument,
            },
    {
        let options = ReadOptions::new();
        self.get_cf_opt(cf, key, &options)
    }

    /// Pins the last sequence number: reads through the snapshot see the
    /// writes made so far, and none that follow.
    pub fn snapshot(&mut self) -> (s: Snapshot)
        requires
            old(self).wf(),
        ensures
            final(self).wf(),
            s.horizon() == old(self)@.last_sequence,
            final(self)@ == (DbView {
                snapshots: old(self)@.snapshots.push(old(self)@.last_sequence),
                ..old(self)@
            }),
    {
        let s = self.snapshots.pin(self.last_sequence);
        s
    }

    /// Releases a snapshot: its horizon is pinned once less. Returns whether
    /// the horizon was pinned.
    pub fn release_snapshot(&mut self, snapshot: &Snapshot) -> (released: bool)
        requires
            old(self).wf(),
        ensures
            final(self).wf(),
            released == old(self)@.snapshots.contains(snapshot.horizon()),
            released ==> final(self)@ == (DbView {
                snapshots: old(self)@.snapshots.remove(
                    first_pin(old(self)@.snapshots, snapshot.horizon()),
                ),
                ..old(self)@
            }),
            !released ==> final(self)@ == old(self)@,
    {
        self.snapshots.release(snapshot)
    }

    /// An iterator over the column family `cf`, with the given options. It
    /// pins the family's versions as they are now, and sees them at the
    /// snapshot's horizon or, without a snapshot, at the last sequence
    /// number. Fails where the column family does not exist.
    pub fn iter_cf_opt(&self, cf: CFHandle, options: ReadOptions) -> (r: Result<
        DBIterator<'a>,
        Error,
    >)
        requires
            self.wf(),
        ensures
            match r {
                Ok(it) => self@.place_of(cf.number()) matches Some(i) && it.wf() && it.pins() == (
                IteratorPins {
                    source: self@.families[i].data.versions,
                    horizon: self@.horizon(options.snapshot),
                    operator: self@.families[i].operator,
                    transform: self@.families[i].transform,
                    upper: options.iterate_upper_bound.deep_view(),
                    prefix_same_as_start: options.prefix_same_as_start,
                    total_order_seek: options.total_order_seek,
                }) && it.cursor() is None && it.domain() == Seq::<KeyValueView>::empty(),
                Err(e) => self@.place_of(cf.number()) is None && e == Error::InvalidArgument,
            },
    {
        let i = match self.find_id(cf.id) {
            Some(i) => i,
            None => {
                return Err(Error::InvalidArgument);
            },
        };
        let horizon = match options.snapshot {
            Some(s) => s.sequence(),
            None => self.last_sequence,
        };
        proof {
            assert(self@.families[i as int] == self.families[i as int]@);
            assert(self@.data()[i as int] == self@.families[i as int].data);
        }
        let family = &self.families[i];
        let table = duplicate_table(&family.data.table);
        Ok(DBIterator::new(table, horizon, family.merge_operator, family.prefix_extractor, options))
    }

    /// The handle of the column family that calls without a handle go to.
    fn default_handle(&self) -> (r: Option<CFHandle>)
        requires
            self.wf(),
        ensures
            match r {
                Some(h) => self@.id_of_name(default_name()) == Some(h.number()),
                None => self@.id_of_name(default_name()) is None,
            },
    {
        self.cf_handle("default")
    }

    /// Sets the value of `key` in the default column family.
    pub fn put(&mut self, key: &[u8], value: &[u8]) -> (r: Result<(), Error>)
        requires
            old(self).wf(),
        ensures
            final(self).wf(),
            match r {
                Ok(_) => {
                    &&& old(self)@.default_write_refusal(WriteKind::Put) is None
                    &&& final(self)@ == old(self)@.written(
                        old(self)@.id_of_name(default_name()).unwrap(),
                        key@,
                        WriteKind::Put,
                        value@,
                    )
                },
                Err(e) => {
                    &&& old(self)@.default_write_refusal(WriteKind::Put) == Some(e)
                    &&& final(self)@ == old(self)@
                },
            },
    {
        match self.default_handle() {
            Some(h) => self.put_cf(h, key, value),
            None => Err(Error::InvalidArgument),
        }
    }

    /// Sets the value of `key` in the default column family. The options
    /// change how the write is made durable, not what it writes.
    pub fn put_opt(&mut self, key: &[u8], value: &[u8], options: &WriteOptions) -> (r: Result<
        (),
        Error,
    >)
        requires
            old(self).wf(),
        ensures
            final(self).wf(),
            match r {
                Ok(_) => {
                    &&& old(self)@.default_write_refusal(WriteKind::Put) is None
                    &&& final(self)@ == old(self)@.written(
                        old(self)@.id_of_name(default_name()).unwrap(),
                        key@,
                        WriteKind::Put,
                        value@,
                    )
                },
                Err(e) => {
                    &&& old(self)@.default_write_refusal(WriteKind::Put) == Some(e)
                    &&& final(self)@ == old(self)@
                },
            },
    {
        self.put(key, value)
    }

    /// Removes `key` from the default column family.
    pub fn delete(&mut self, key: &[u8]) -> (r: Result<(), Error>)
        requires
            old(self).wf(),
        ensures
            final(self).wf(),
            match r {
                Ok(_) => {
                    &&& old(self)@.default_write_refusal(WriteKind::Delete) is None
                    &&& final(self)@ == old(self)@.written(
                        old(self)@.id_of_name(default_name()).unwrap(),
                        key@,
                        WriteKind::Delete,
                        Seq::empty(),
                    )
                },
                Err(e) => {
                    &&& old(self)@.default_write_refusal(WriteKind::Delete) == Some(e)
                    &&& final(self)@ == old(self)@
                },
            },
    {
        match self.default_handle() {
            Some(h) => self.delete_cf(h, key),
            None => Err(Error::InvalidArgument),
        }
    }

    /// Adds a merge operand for `key` in the default column family.
    pub fn merge(&mut self, key: &[u8], value: &[u8]) -> (r: Result<(), Error>)
        requires
            old(self).wf(),
        ensures
            final(self).wf(),
            match r {
                Ok(_) => {
                    &&& old(self)@.default_write_refusal(WriteKind::Merge) is None
                    &&& final(self)@ == old(self)@.written(
                        old(self)@.id_of_name(default_name()).unwrap(),
                        key@,
                        WriteKind::Merge,
                        value@,
                    )
                },
                Err(e) => {
                    &&& old(self)@.default_write_refusal(WriteKind::Merge) == Some(e)
                    &&& final(self)@ == old(self)@
                },
            },
    {
        match self.default_handle() {
            Some(h) => self.merge_cf(h, key, value),
            None => Err(Error::InvalidArgument),
        }
    }

    /// Reads the latest value of `key` in the default column family. Fails
    /// where there is no default column family.
    pub fn get(&self, key: &[u8]) -> (r: Result<Option<Vec<u8>>, Error>)
        requires
            self.wf(),
        ensures
            match r {
                Ok(v) => self@.id_of_name(default_name()) matches Some(id) && v.deep_view()
                    == self@.value_at(id, key@, self@.last_sequence),
                Err(e) => self@.id_of_name(default_name()) is None && e == Error::InvalidArgument,
            },
    {
        match self.default_handle() {
            Some(h) => {
                proof {
                    let i = self@.place_of_name(default_name()).unwrap();
                    lemma_place_of(self@, i);
                }
                self.get_cf(h, key)
            },
            None => Err(Error::InvalidArgument),
        }
    }

    /// Reads `key` in the default column family at the horizon that the
    /// options give. Fails where there is no default column family.
    pub fn get_opt(&self, key: &[u8], options: &ReadOptions) -> (r: Result<Option<Vec<u8>>, Error>)
        requires
            self.wf(),
        ensures
            match r {
                Ok(v) => {
                    &&& self@.id_of_name(default_name()) matches Some(id)
                    &&& v.deep_view() == self@.value_at(id, key@, self@.horizon(options.snapshot))
                },
                Err(e) => self@.id_of_name(default_name()) is None && e == Error::InvalidArgument,
            },
    {
        match self.default_handle() {
            Some(h) => {
                proof {
                    let i = self@.place_of_name(default_name()).unwrap();
                    lemma_place_of(self@, i);
                }
                self.get_cf_opt(h, key, options)
            },
            None => Err(Error::InvalidArgument),
        }
    }

    /// An iterator over the column family `cf` that sees the latest state.
    pub fn iter_cf(&self, cf: CFHandle) -> (r: Result<DBIterator<'a>, Error>)
        requires
            self.wf(),
        ensures
            match r {
                Ok(it) => self@.place_of(cf.number()) matches Some(i) && it.wf() && it.pins() == (
                IteratorPins {
                    source: self@.families[i].data.versions,
                    horizon: self@.last_sequence,
                    operator: self@.families[i].operator,
                    transform: self@.families[i].transform,
                    upper: None,
                    prefix_same_as_start: false,
                    total_order_seek: false,
                }) && it.cursor() is None && it.domain() == Seq::<KeyValueView>::empty(),
                Err(e) => self@.place_of(cf.number()) is None && e == Error::InvalidArgument,
            },
    {
        self.iter_cf_opt(cf, ReadOptions::new())
    }

    /// An iterator over the default column family, with the given options.
    pub fn iter_opt(&self, options: ReadOptions) -> (r: Result<DBIterator<'a>, Error>)
        requires
            self.wf(),
        ensures
            match r {
                Ok(it) => self@.place_of_name(default_name()) matches Some(i) && it.wf()
                    && it.pins() == (IteratorPins {
                    source: self@.families[i].data.versions,
                    horizon: self@.horizon(options.snapshot),
                    operator: self@.families[i].operator,
                    transform: self@.families[i].transform,
                    upper: options.iterate_upper_bound.deep_view(),
                    prefix_same_as_start: options.prefix_same_as_start,
                    total_order_seek: options.total_order_seek,
                }) && it.cursor() is None && it.domain() == Seq::<KeyValueView>::empty(),
                Err(e) => self@.place_of_name(default_name()) is None && e
                    == Error::InvalidArgument,
            },
    {
        match self.default_handle() {
            Some(h) => {
                proof {
                    let i = self@.place_of_name(default_name()).unwrap();
                    lemma_place_of(self@, i);
                }
                self.iter_cf_opt(h, options)
            },
            None => Err(Error::InvalidArgument),
        }
    }

    /// An iterator over the default column family that sees the latest state.
    pub fn iter(&self) -> (r: Result<DBIterator<'a>, Error>)
        requires
            self.wf(),
        ensures
            match r {
                Ok(it) => self@.place_of_name(default_name()) matches Some(i) && it.wf()
                    && it.pins() == (IteratorPins {
                    source: self@.families[i].data.versions,
                    horizon: self@.last_sequence,
                    operator: self@.families[i].operator,
                    transform: self@.families[i].transform,
                    upper: None,
                    prefix_same_as_start: false,
                    total_order_seek: false,
                }) && it.cursor() is None && it.domain() == Seq::<KeyValueView>::empty(),
                Err(e) => self@.place_of_name(default_name()) is None && e
                    == Error::InvalidArgument,
            },
    {
        self.iter_opt(ReadOptions::new())
    }

    /// Makes a column family named `name` with the given options. It takes
    /// writes at once.
    pub fn create_cf_opt(&mut self, name: &str, options: ColumnFamilyOptions<'a>) -> (r: Result<
        CFHandle,
        Error,
    >)
        requires
            old(self).wf(),
        ensures
            final(self).wf(),
            match r {
                Ok(h) => {
                    &&& old(self)@.create_refusal(name@, options.identity().num_levels) is None
                    &&& h.number() == old(self)@.next_family_id
                    &&& final(self)@ == old(self)@.created(
                        empty_family(
                            name@,
                            old(self)@.next_family_id,
                            options.identity(),
                            options.operator(),
                            options.transform(),
                            options.has_filter(),
                        ),
                    )
                },
                Err(e) => old(self)@.create_refusal(name@, options.identity().num_levels) == Some(
                    e,
                ) && final(self)@ == old(self)@,
            },
    {
        if self.read_only || self.find_name(name).is_some() || options.num_levels() == 0 {
            return Err(Error::InvalidArgument);
        }
        if self.next_family_id == u64::MAX {
            return Err(Error::IOError);
        }
        let id = self.next_family_id;
        let data = FamilyData::new(name.to_owned(), id, crate::family::FamilyIdentity::new());
        let family = ColumnFamily::open(data, options);
        let ghost fv = family@;
        self.families.push(family);
        self.next_family_id = id + 1;
        proof {
            let before = old(self)@;
            let after = before.created(fv);
            assert(self@.families =~= after.families) by {
                assert forall|x: int| 0 <= x < self@.families.len() implies self@.families[x]
                    == after.families[x] by {
                    assert(self@.families[x] == self.families[x]@);
                    if x < before.families.len() {
                        assert(before.families[x] == old(self).families[x]@);
                    }
                }
            }
            assert(self@ == after);
            let n = before.families.len() as int;
            assert forall|x: int| 0 <= x < after.data().len() implies (#[trigger] after.data()[x]).wf()
                && bounded_by(after.data()[x].versions, after.last_sequence) && after.data()[x].id
                < after.next_family_id by {
                if x < n {
                    assert(before.data()[x] == before.families[x].data);
                    assert(after.data()[x] == before.data()[x]);
                }
            }
            assert forall|x: int, y: int| 0 <= x < y < after.data().len() implies (
            #[trigger] after.data()[x]).name != (#[trigger] after.data()[y]).name
                && after.data()[x].id != after.data()[y].id by {
                assert(before.data()[x] == before.families[x].data);
                assert(after.data()[x] == before.data()[x]);
                if y < n {
                    assert(before.data()[y] == before.families[y].data);
                    assert(after.data()[y] == before.data()[y]);
                } else {
                    assert(before.data()[x].id < before.next_family_id);
                }
            }
        }
        Ok(CFHandle { id })
    }

    /// Makes a column family named `name` with default options.
    pub fn create_cf(&mut self, name: &str) -> (r: Result<CFHandle, Error>)
        requires
            old(self).wf(),
        ensures
            final(self).wf(),
            match r {
                Ok(h) => {
                    &&& old(self)@.create_refusal(name@, 7) is None
                    &&& h.number() == old(self)@.next_family_id
                    &&& final(self)@ == old(self)@.created(
                        empty_family(
                            name@,
                            old(self)@.next_family_id,
                            default_identity(),
                            None,
                            None,
                            false,
                        ),
                    )
                },
                Err(e) => {
                    &&& old(self)@.create_refusal(name@, 7) == Some(e)
                    &&& final(self)@ == old(self)@
                },
            },
    {
        self.create_cf_opt(name, ColumnFamilyOptions::new())
    }

    /// Drops the column family named `name`. Its handle names nothing from
    /// then on; iterators and snapshots made before keep what they pinned.
    pub fn drop_cf(&mut self, name: &str) -> (r: Result<(), Error>)
        requires
            old(self).wf(),
        ensures
            final(self).wf(),
            match r {
                Ok(_) => !old(self)@.drop_refused(name@) && final(self)@ == old(self)@.dropped(
                    name@,
                ),
                Err(e) => {
                    &&& old(self)@.drop_refused(name@)
                    &&& e == Error::InvalidArgument
                    &&& final(self)@ == old(self)@
                },
            },
    {
        if self.read_only {
            return Err(Error::InvalidArgument);
        }
        let i = match self.find_name(name) {
            Some(i) => i,
            None => {
                return Err(Error::InvalidArgument);
            },
        };
        if name.to_owned() == "default".to_owned() {
            return Err(Error::InvalidArgument);
        }
        self.families.remove(i);
        proof {
            let before = old(self)@;
            let after = before.dropped(name@);
            assert(self@.families =~= after.families) by {
                assert forall|x: int| 0 <= x < self@.families.len() implies self@.families[x]
                    == after.families[x] by {
                    assert(self@.families[x] == self.families[x]@);
                    if x < i {
                        assert(before.families[x] == old(self).families[x]@);
                    } else {
                        assert(before.families[x + 1] == old(self).families[x + 1]@);
                    }
                }
            }
            assert(self@ == after);
            assert forall|x: int| 0 <= x < after.data().len() implies (#[trigger] after.data()[x]).wf()
                && bounded_by(after.data()[x].versions, after.last_sequence) && after.data()[x].id
                < after.next_family_id by {
                if x < i {
                    assert(before.data()[x] == before.families[x].data);
                } else {
                    assert(before.data()[x + 1] == before.families[x + 1].data);
                }
            }
            assert forall|x: int, y: int| 0 <= x < y < after.data().len() implies (
            #[trigger] after.data()[x]).name != (#[trigger] after.data()[y]).name
                && after.data()[x].id != after.data()[y].id by {
                let x0 = if x < i { x } else { x + 1 };
                let y0 = if y < i { y } else { y + 1 };
                assert(before.data()[x0] == before.families[x0].data);
                assert(before.data()[y0] == before.families[y0].data);
                assert(after.data()[x] == before.data()[x0]);
                assert(after.data()[y] == before.data()[y0]);
            }
        }
        Ok(())
    }

    /// Flushes the memtable of the column family `cf`: its run, if it holds
    /// a version, joins the flushed runs. What readers see does not change.
    /// `sync` says whether the caller waits for the flush; it changes nothing
    /// of what is flushed.
    pub fn flush_cf(&mut self, cf: CFHandle, sync: bool) -> (r: Result<(), Error>)
        requires
            old(self).wf(),
        ensures
            final(self).wf(),
            match r {
                Ok(_) => {
                    &&& old(self)@.flush_refusal(cf.number()) is None
                    &&& final(self)@ == old(self)@.flushed(cf.number())
                },
                Err(e) => {
                    &&& old(self)@.flush_refusal(cf.number()) == Some(e)
                    &&& final(self)@ == old(self)@
                },
            },
    {
        if self.read_only {
            return Err(Error::InvalidArgument);
        }
        let i = match self.find_id(cf.id) {
            Some(i) => i,
            None => {
                return Err(Error::InvalidArgument);
            },
        };
        proof {
            assert(self@.families[i as int] == self.families[i as int]@);
            assert(self@.data()[i as int] == self@.families[i as int].data);
        }
        let done = self.families[i].data.flush();
        proof {
            let before = old(self)@;
            assert(before.families[i as int] == old(self).families[i as int]@);
            let after = if done is Ok {
                before.flushed(cf.number())
            } else {
                before
            };
            assert(self@.families =~= after.families) by {
                assert forall|x: int| 0 <= x < self@.families.len() implies self@.families[x]
                    == after.families[x] by {
                    assert(self@.families[x] == self.families[x]@);
                    assert(before.families[x] == old(self).families[x]@);
                }
            }
            assert(self@ == after);
            assert forall|x: int| 0 <= x < after.data().len() implies (#[trigger] after.data()[x]).wf()
                && bounded_by(after.data()[x].versions, after.last_sequence) && after.data()[x].id
                < after.next_family_id by {
                assert(before.data()[x] == before.families[x].data);
                if x != i {
                    assert(after.data()[x] == before.data()[x]);
                }
            }
            assert forall|x: int, y: int| 0 <= x < y < after.data().len() implies (
            #[trigger] after.data()[x]).name != (#[trigger] after.data()[y]).name
                && after.data()[x].id != after.data()[y].id by {
                assert(before.data()[x].name == after.data()[x].name);
                assert(before.data()[y].name == after.data()[y].name);
                assert(before.data()[x].id == after.data()[x].id);
                assert(before.data()[y].id == after.data()[y].id);
            }
        }
        done
    }

    /// Flushes the memtable of the default column family.
    pub fn flush(&mut self, sync: bool) -> (r: Result<(), Error>)
        requires
            old(self).wf(),
        ensures
            final(self).wf(),
            match r {
                Ok(_) => {
                    &&& old(self)@.id_of_name(default_name()) matches Some(id)
                    &&& old(self)@.flush_refusal(id) is None
                    &&& final(self)@ == old(self)@.flushed(id)
                },
                Err(e) => final(self)@ == old(self)@ && (match old(self)@.id_of_name(
                    default_name(),
                ) {
                    Some(id) => old(self)@.flush_refusal(id) == Some(e),
                    None => e == Error::InvalidArgument,
                }),
            },
    {
        match self.default_handle() {
            Some(h) => self.flush_cf(h, sync),
            None => Err(Error::InvalidArgument),
        }
    }

    /// Compacts the range from `start` to `end` of the column family `cf`.
    /// The memtable is flushed; the runs that hold a key of the range are
    /// replaced by one new run, without the versions that a newer put or
    /// delete shields from every reader that counts. The compaction filter of
    /// the column family, if it has one, is shown each entry of
    /// `compaction_offers` once, in order, and what it decides is done; the
    /// report tells what was shown and what was decided.
    pub fn compact_range_cf_opt(
        &mut self,
        cf: CFHandle,
        options: &CompactOptions,
        start: Option<&[u8]>,
        end: Option<&[u8]>,
    ) -> (r: Result<CompactionReport, Error>)
        requires
            old(self).wf(),
        ensures
            final(self).wf(),
            match r {
                Ok(report) => {
                    &&& old(self)@.compact_refusal(
                        cf.number(),
                        *options,
                        slice_option_view(start),
                        slice_option_view(end),
                    ) is None
                    &&& report.offered.deep_view() == old(self)@.compaction_offers(
                        cf.number(),
                        *options,
                        slice_option_view(start),
                        slice_option_view(end),
                    )
                    &&& exists|choice: Map<Seq<u8>, DecisionView>|
                        tells(report, choice) && final(self)@ == #[trigger] old(self)@.range_compacted(
                            cf.number(),
                            *options,
                            slice_option_view(start),
                            slice_option_view(end),
                            choice,
                        )
                    &&& !old(self)@.families[old(self)@.place_of(
                        cf.number(),
                    ).unwrap()].has_filter ==> forall|x: int|
                        0 <= x < report.decisions.len() ==> (
                        #[trigger] report.decisions.deep_view()[x]) == DecisionView::Keep
                },
                Err(e) => old(self)@.compact_refusal(
                    cf.number(),
                    *options,
                    slice_option_view(start),
                    slice_option_view(end),
                ) == Some(e) && final(self)@ == old(self)@,
            },
    {
        if self.read_only {
            return Err(Error::InvalidArgument);
        }
        let i = match self.find_id(cf.id) {
            Some(i) => i,
            None => {
                return Err(Error::InvalidArgument);
            },
        };
        proof {
            assert(self@.families[i as int] == self.families[i as int]@);
            assert(self@.data()[i as int] == self@.families[i as int].data);
        }
        let done = self.families[i].compact_range(&self.snapshots, options, start, end);
        let ghost outcome = done;
        proof {
            let before = old(self)@;
            let id = cf.number();
            assert(before.families[i as int] == old(self).families[i as int]@);
            let family = before.families[i as int];
            let task = task_of(
                *options,
                family.has_filter,
                slice_option_view(start),
                slice_option_view(end),
            );
            let now = self.families[i as int]@;
            assert(self@.families =~= before.families.update(i as int, now)) by {
                assert forall|x: int| 0 <= x < self@.families.len() implies self@.families[x]
                    == before.families.update(i as int, now)[x] by {
                    assert(self@.families[x] == self.families[x]@);
                    assert(before.families[x] == old(self).families[x]@);
                }
            }
            match outcome {
                Ok(report) => {
                    let choice = choose|choice: Map<Seq<u8>, DecisionView>|
                        tells(report, choice) && now.data == #[trigger] range_compacted(
                            family.data,
                            task,
                            before.snapshots,
                            choice,
                        );
                    let after = before.range_compacted(
                        id,
                        *options,
                        slice_option_view(start),
                        slice_option_view(end),
                        choice,
                    );
                    assert(now == after.families[i as int]);
                    assert(self@.families =~= after.families);
                    assert(self@ == after);
                },
                Err(_) => {
                    assert(self@.families =~= before.families);
                },
            }
            let after = self@;
            assert forall|x: int| 0 <= x < after.data().len() implies (#[trigger] after.data()[x]).wf()
                && bounded_by(after.data()[x].versions, after.last_sequence) && after.data()[x].id
                < after.next_family_id by {
                assert(before.data()[x] == before.families[x].data);
                if x != i {
                    assert(after.data()[x] == before.data()[x]);
                } else {
                    assert(after.data()[x] == now.data);
                    if outcome is Ok {
                        assert(now.data.id == family.data.id);
                    }
                }
            }
            assert forall|x: int, y: int| 0 <= x < y < after.data().len() implies (
            #[trigger] after.data()[x]).name != (#[trigger] after.data()[y]).name
                && after.data()[x].id != after.data()[y].id by {
                assert(before.data()[x].name == after.data()[x].name);
                assert(before.data()[y].name == after.data()[y].name);
                assert(before.data()[x].id == after.data()[x].id);
                assert(before.data()[y].id == after.data()[y].id);
            }
        }
        done
    }

    /// Compacts the range from `start` to `end` of the column family `cf`,
    /// with default options.
    pub fn compact_range_cf(&mut self, cf: CFHandle, start: Option<&[u8]>, end: Option<&[u8]>) -> (r:
        Result<CompactionReport, Error>)
        requires
            old(self).wf(),
        ensures
            final(self).wf(),
            ({
                let options = default_compact_options();
                match r {
                    Ok(report) => {
                        &&& old(self)@.compact_refusal(
                            cf.number(),
                            options,
                            slice_option_view(start),
                            slice_option_view(end),
                        ) is None
                        &&& report.offered.deep_view() == old(self)@.compaction_offers(
                            cf.number(),
                            options,
                            slice_option_view(start),
                            slice_option_view(end),
                        )
                        &&& exists|choice: Map<Seq<u8>, DecisionView>|
                            tells(report, choice) && final(self)@ == #[trigger] old(self)@.range_compacted(
                                cf.number(),
                                options,
                                slice_option_view(start),
                                slice_option_view(end),
                                choice,
                            )
                    },
                    Err(e) => old(self)@.compact_refusal(
                        cf.number(),
                        options,
                        slice_option_view(start),
                        slice_option_view(end),
                    ) == Some(e) && final(self)@ == old(self)@,
                }
            }),
    {
        let options = CompactOptions::new();
        self.compact_range_cf_opt(cf, &options, start, end)
    }

    /// Compacts the range from `start` to `end` of the default column
    /// family, with default options. Fails where there is no default column
    /// family.
    pub fn compact_range(&mut self, start: Option<&[u8]>, end: Option<&[u8]>) -> (r: Result<
        CompactionReport,
        Error,
    >)
        requires
            old(self).wf(),
        ensures
            final(self).wf(),
            ({
                let options = default_compact_options();
                match r {
                    Ok(report) => {
                        &&& old(self)@.id_of_name(default_name()) matches Some(id)
                        &&& old(self)@.compact_refusal(
                            id,
                            options,
                            slice_option_view(start),
                            slice_option_view(end),
                        ) is None
                        &&& report.offered.deep_view() == old(self)@.compaction_offers(
                            id,
                            options,
                            slice_option_view(start),
                            slice_option_view(end),
                        )
                        &&& exists|choice: Map<Seq<u8>, DecisionView>|
                            tells(report, choice) && final(self)@ == #[trigger] old(self)@.range_compacted(
                                id,
                                options,
                                slice_option_view(start),
                                slice_option_view(end),
                                choice,
                            )
                    },
                    Err(e) => final(self)@ == old(self)@ && (match old(self)@.id_of_name(
                        default_name(),
                    ) {
                        Some(id) => old(self)@.compact_refusal(
                            id,
                            options,
                            slice_option_view(start),
                            slice_option_view(end),
                        ) == Some(e),
                        None => e == Error::InvalidArgument,
                    }),
                }
            }),
    {
        match self.default_handle() {
            Some(h) => self.compact_range_cf(h, start, end),
            None => Err(Error::InvalidArgument),
        }
    }

    /// A handle made of its parts.
    pub(crate) fn from_parts(
        path: String,
        read_only: bool,
        families: Vec<ColumnFamily<'a>>,
        last_sequence: u64,
        next_family_id: u64,
    ) -> (r: DB<'a>)
        ensures
            r@ == (DbView {
                path: path@,
                read_only: read_only,
                families: family_views(families@),
                last_sequence: last_sequence,
                next_family_id: next_family_id,
                snapshots: Seq::empty(),
            }),
    {
        DB { path, read_only, families, last_sequence, next_family_id, snapshots: SnapshotList::new() }
    }

    /// What the handle keeps of its column families, with the counters.
    pub(crate) fn into_parts(self) -> (r: (String, bool, Vec<FamilyData>, u64, u64))
        ensures
            r.0@ == self@.path,
            r.1 == self@.read_only,
            crate::env::data_views(r.2@) == self@.data(),
            r.3 == self@.last_sequence,
            r.4 == self@.next_family_id,
    {
        let ghost whole = self@;
        let DB { path, read_only, families, last_sequence, next_family_id, snapshots } = self;
        let mut families = families;
        let ghost all = families@;
        let mut data: Vec<FamilyData> = Vec::new();
        // Taken from the back, then put in order.
        let mut back: Vec<FamilyData> = Vec::new();
        while families.len() > 0
            invariant
                families@ == all.subrange(0, families.len() as int),
                back.len() == all.len() - families.len(),
                forall|x: int|
                    0 <= x < back.len() ==> (#[trigger] back[x])@ == all[all.len() - 1 - x]@.data,
            decreases families.len(),
        {
            let ghost n = families.len();
            let f = families.pop().unwrap();
            assert(f == all[n - 1]);
            assert(families@ =~= all.subrange(0, n - 1));
            back.push(f.data);
        }
        while back.len() > 0
            invariant
                back.len() + data.len() == all.len(),
                forall|x: int|
                    0 <= x < back.len() ==> (#[trigger] back[x])@ == all[all.len() - 1 - x]@.data,
                forall|x: int| 0 <= x < data.len() ==> (#[trigger] data[x])@ == all[x]@.data,
            decreases back.len(),
        {
            let d = back.pop().unwrap();
            data.push(d);
        }
        assert(crate::env::data_views(data@) =~= whole.data()) by {
            assert forall|x: int| 0 <= x < data.len() implies crate::env::data_views(data@)[x]
                == whole.data()[x] by {
                assert(whole.families[x] == all[x]@);
            }
        }
        (path, read_only, data, last_sequence, next_family_id)
    }
}

} // verus!
