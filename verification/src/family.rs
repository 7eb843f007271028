//! Column families: named partitions of a database, each with its own
//! versions, runs and configuration.

use vstd::prelude::*;
use vstd::string::StringSliceAdditionalSpecFns;
use crate::bytes::copy_bytes;
use crate::error::Error;
use crate::filter::CompactionFilter;
use crate::merge::MergeOperator;
use crate::prefix::SliceTransform;
use crate::read::{live_at, read_at, KeyValue};
use crate::version::{
    bounded_by, duplicate_table, insert_version, is_sorted, rank, sorted, with_version, Version,
    VersionView, WriteKind,
};

verus! {

/// A flushed run: its number and the level it lies at.
#[derive(Clone, Copy, Debug, PartialEq, Eq, Structural)]
pub struct RunInfo {
    pub id: u64,
    pub level: usize,
}

/// The kind of buffer that holds a column family's recent writes.
#[derive(Clone, Copy, Debug, PartialEq, Eq, Structural)]
pub enum MemtableFactory {
    SkipList,
    DoublySkipList,
}

/// The configuration identity of a column family: what is kept with the
/// database and held against the options given when it is opened again.
#[derive(Clone, Debug, PartialEq, Eq)]
pub struct FamilyIdentity {
    pub merge_operator: Option<String>,
    pub prefix_extractor: Option<String>,
    pub compaction_filter: Option<String>,
    pub num_levels: usize,
    pub disable_auto_compactions: bool,
}

/// The mathematical value of a [`FamilyIdentity`].
pub struct IdentityView {
    pub merge_operator: Option<Seq<char>>,
    pub prefix_extractor: Option<Seq<char>>,
    pub compaction_filter: Option<Seq<char>>,
    pub num_levels: usize,
    pub disable_auto_compactions: bool,
}

/// The characters of an optional name.
pub open spec fn name_view(name: Option<String>) -> Option<Seq<char>> {
    match name {
        Some(s) => Some(s@),
        None => None,
    }
}

impl View for FamilyIdentity {
    type V = IdentityView;

    open spec fn view(&self) -> IdentityView {
        IdentityView {
            merge_operator: name_view(self.merge_operator),
            prefix_extractor: name_view(self.prefix_extractor),
            compaction_filter: name_view(self.compaction_filter),
            num_levels: self.num_levels,
            disable_auto_compactions: self.disable_auto_compactions,
        }
    }
}

/// The identity of a column family with default options: no operator, no
/// extractor, no filter, seven levels, automatic compaction.
pub open spec fn default_identity() -> IdentityView {
    IdentityView {
        merge_operator: None,
        prefix_extractor: None,
        compaction_filter: None,
        num_levels: 7,
        disable_auto_compactions: false,
    }
}

/// A copy of an optional name.
pub fn duplicate_name(name: &Option<String>) -> (r: Option<String>)
    ensures
        name_view(r) == name_view(*name),
{
    match name {
        Some(s) => Some(s.clone()),
        None => None,
    }
}

impl FamilyIdentity {
    /// The identity of a column family with default options: no operator, no
    /// extractor, no filter, seven levels, automatic compaction.
    pub fn new() -> (r: FamilyIdentity)
        ensures
            r@ == default_identity(),
    {
        FamilyIdentity {
            merge_operator: None,
            prefix_extractor: None,
            compaction_filter: None,
            num_levels: 7,
            disable_auto_compactions: false,
        }
    }

    /// A copy of this identity.
    pub fn duplicate(&self) -> (r: FamilyIdentity)
        ensures
            r@ == self@,
    {
        FamilyIdentity {
            merge_operator: duplicate_name(&self.merge_operator),
            prefix_extractor: duplicate_name(&self.prefix_extractor),
            compaction_filter: duplicate_name(&self.compaction_filter),
            num_levels: self.num_levels,
            disable_auto_compactions: self.disable_auto_compactions,
        }
    }
}

/// What a database keeps of a column family: its name and number, its
/// configuration identity, its versions and the bookkeeping of its runs.
pub struct FamilyData {
    pub name: String,
    pub id: u64,
    pub identity: FamilyIdentity,
    pub table: Vec<Version>,
    pub runs: Vec<RunInfo>,
    pub memtable_run: u64,
    pub next_run: u64,
}

/// The mathematical value of a [`FamilyData`].
pub struct DataView {
    pub name: Seq<char>,
    pub id: u64,
    pub identity: IdentityView,
    /// All versions, sorted by key and from the newest to the oldest.
    pub versions: Seq<VersionView>,
    /// The flushed runs, in the order in which they were made.
    pub runs: Seq<RunInfo>,
    /// The run that takes the writes.
    pub memtable_run: u64,
    /// The number that the next run gets.
    pub next_run: u64,
}

impl View for FamilyData {
    type V = DataView;

    open spec fn view(&self) -> DataView {
        DataView {
            name: self.name@,
            id: self.id,
            identity: self.identity@,
            versions: self.table.deep_view(),
            runs: self.runs@,
            memtable_run: self.memtable_run,
            next_run: self.next_run,
        }
    }
}

impl DataView {
    /// The versions are sorted, and every run number in use lies below the
    /// number that the next run gets.
    pub open spec fn wf(self) -> bool {
        &&& sorted(self.versions)
        &&& self.memtable_run < self.next_run
        &&& forall|i: int| 0 <= i < self.versions.len() ==> (#[trigger] self.versions[i]).run
            < self.next_run
        &&& forall|i: int| 0 <= i < self.runs.len() ==> (#[trigger] self.runs[i]).id < self.next_run
        &&& self.identity.num_levels >= 1
        &&& forall|i: int|
            0 <= i < self.runs.len() ==> (#[trigger] self.runs[i]).level < self.identity.num_levels
    }

    /// The column family after a write of `kind` to `key` with sequence
    /// number `sequence`: a new version in the memtable's run.
    pub open spec fn written(
        self,
        key: Seq<u8>,
        sequence: u64,
        kind: WriteKind,
        value: Seq<u8>,
    ) -> DataView {
        DataView {
            versions: with_version(
                self.versions,
                VersionView { key, sequence, kind, value, run: self.memtable_run },
            ),
            ..self
        }
    }

    /// Some version lies in the memtable's run.
    pub open spec fn memtable_in_use(self) -> bool {
        exists|i: int| 0 <= i < self.versions.len() && (#[trigger] self.versions[i]).run
            == self.memtable_run
    }

    /// The column family after a flush: the memtable's run, if it holds a
    /// version, joins the flushed runs at level 0, and a new run takes the
    /// writes.
    pub open spec fn flushed(self) -> DataView {
        if self.memtable_in_use() {
            DataView {
                runs: self.runs.push(RunInfo { id: self.memtable_run, level: 0 }),
                memtable_run: self.next_run,
                next_run: (self.next_run + 1) as u64,
                ..self
            }
        } else {
            self
        }
    }

    /// The column family holds no version at all.
    pub open spec fn unused(self) -> bool {
        self.versions.len() == 0
    }

    /// Some version is a merge operand.
    pub open spec fn holds_operands(self) -> bool {
        exists|i: int| 0 <= i < self.versions.len() && (#[trigger] self.versions[i]).kind
            == WriteKind::Merge
    }

    /// The deepest level at which a run lies, plus one; 0 without runs.
    pub open spec fn levels_in_use(self) -> int
        decreases self.runs.len(),
    {
        if self.runs.len() == 0 {
            0
        } else {
            let rest = (DataView { runs: self.runs.drop_last(), ..self }).levels_in_use();
            if self.runs.last().level + 1 > rest {
                self.runs.last().level + 1
            } else {
                rest
            }
        }
    }
}

/// No run lies at or below the count of levels in use, and the count is that
/// of some run, or 0.
pub proof fn lemma_levels_in_use(data: DataView, bound: int)
    requires
        forall|i: int| 0 <= i < data.runs.len() ==> (#[trigger] data.runs[i]).level < bound,
        bound >= 0,
    ensures
        0 <= data.levels_in_use() <= bound,
        forall|i: int| 0 <= i < data.runs.len() ==> (#[trigger] data.runs[i]).level
            < data.levels_in_use(),
    decreases data.runs.len(),
{
    if data.runs.len() > 0 {
        let rest = DataView { runs: data.runs.drop_last(), ..data };
        assert forall|i: int| 0 <= i < rest.runs.len() implies (#[trigger] rest.runs[i]).level
            < bound by {
            assert(rest.runs[i] == data.runs[i]);
        }
        lemma_levels_in_use(rest, bound);
        assert forall|i: int| 0 <= i < data.runs.len() implies (#[trigger] data.runs[i]).level
            < data.levels_in_use() by {
            if i < rest.runs.len() {
                assert(rest.runs[i] == data.runs[i]);
            }
        }
    }
}

/// A count of levels in use below `bound` puts every run below `bound`.
pub proof fn lemma_levels_fit(data: DataView, bound: int)
    requires
        data.levels_in_use() <= bound,
    ensures
        forall|i: int| 0 <= i < data.runs.len() ==> (#[trigger] data.runs[i]).level < bound,
    decreases data.runs.len(),
{
    if data.runs.len() > 0 {
        let rest = DataView { runs: data.runs.drop_last(), ..data };
        lemma_levels_fit(rest, bound);
        assert forall|i: int| 0 <= i < data.runs.len() implies (#[trigger] data.runs[i]).level
            < bound by {
            if i < rest.runs.len() {
                assert(rest.runs[i] == data.runs[i]);
            }
        }
    }
}

impl FamilyData {
    /// A column family without versions.
    pub fn new(name: String, id: u64, identity: FamilyIdentity) -> (r: FamilyData)
        requires
            identity@.num_levels >= 1,
        ensures
            r@ == (DataView {
                name: name@,
                id: id,
                identity: identity@,
                versions: Seq::empty(),
                runs: Seq::empty(),
                memtable_run: 0,
                next_run: 1,
            }),
            r@.wf(),
    {
        let r = FamilyData {
            name,
            id,
            identity,
            table: Vec::new(),
            runs: Vec::new(),
            memtable_run: 0,
            next_run: 1,
        };
        assert(r.table.deep_view() =~= Seq::<VersionView>::empty());
        r
    }

    /// A copy of what is kept.
    pub fn duplicate(&self) -> (r: FamilyData)
        ensures
            r@ == self@,
    {
        let mut runs: Vec<RunInfo> = Vec::new();
        let mut i: usize = 0;
        while i < self.runs.len()
            invariant
                i <= self.runs.len(),
                runs@ == self.runs@.subrange(0, i as int),
            decreases self.runs.len() - i,
        {
            runs.push(self.runs[i]);
            assert(runs@ =~= self.runs@.subrange(0, i + 1));
            i += 1;
        }
        assert(self.runs@.subrange(0, self.runs.len() as int) =~= self.runs@);
        FamilyData {
            name: self.name.clone(),
            id: self.id,
            identity: self.identity.duplicate(),
            table: duplicate_table(&self.table),
            runs,
            memtable_run: self.memtable_run,
            next_run: self.next_run,
        }
    }

    /// Whether what is kept is well formed and no version has a sequence
    /// number above `bound`.
    pub fn is_consistent(&self, bound: u64) -> (b: bool)
        ensures
            b == (self@.wf() && bounded_by(self@.versions, bound)),
    {
        if !is_sorted(&self.table) || self.memtable_run >= self.next_run
            || self.identity.num_levels < 1 {
            return false;
        }
        let ghost vs = self.table.deep_view();
        let mut i: usize = 0;
        while i < self.table.len()
            invariant
                vs == self.table.deep_view(),
                i <= self.table.len(),
                forall|x: int|
                    0 <= x < i ==> (#[trigger] vs[x]).run < self.next_run && vs[x].sequence
                        <= bound,
            decreases self.table.len() - i,
        {
            assert(vs[i as int] == self.table[i as int]@);
            if self.table[i].run >= self.next_run || self.table[i].sequence > bound {
                return false;
            }
            i += 1;
        }
        let mut j: usize = 0;
        while j < self.runs.len()
            invariant
                j <= self.runs.len(),
                forall|x: int|
                    0 <= x < j ==> (#[trigger] self.runs[x]).id < self.next_run
                        && self.runs[x].level < self.identity.num_levels,
            decreases self.runs.len() - j,
        {
            if self.runs[j].id >= self.next_run || self.runs[j].level >= self.identity.num_levels {
                assert(self@.runs[j as int] == self.runs[j as int]);
                return false;
            }
            j += 1;
        }
        true
    }

    /// Whether the column family holds no version at all.
    pub fn is_unused(&self) -> (b: bool)
        ensures
            b == self@.unused(),
    {
        assert(self.table.deep_view().len() == self.table.len());
        self.table.len() == 0
    }

    /// Whether some version is a merge operand.
    pub fn holds_operands(&self) -> (b: bool)
        ensures
            b == self@.holds_operands(),
    {
        let ghost vs = self.table.deep_view();
        let mut i: usize = 0;
        while i < self.table.len()
            invariant
                vs == self.table.deep_view(),
                i <= self.table.len(),
                forall|x: int| 0 <= x < i ==> (#[trigger] vs[x]).kind != WriteKind::Merge,
            decreases self.table.len() - i,
        {
            assert(vs[i as int] == self.table[i as int]@);
            if self.table[i].kind == WriteKind::Merge {
                return true;
            }
            i += 1;
        }
        false
    }

    /// The deepest level at which a run lies, plus one; 0 without runs.
    pub fn levels_in_use(&self) -> (n: usize)
        requires
            self@.wf(),
        ensures
            n == self@.levels_in_use(),
    {
        let ghost whole = self@;
        let mut n: usize = 0;
        let mut i: usize = 0;
        while i < self.runs.len()
            invariant
                whole == self@,
                i <= self.runs.len(),
                self@.wf(),
                n == (DataView { runs: whole.runs.subrange(0, i as int), ..whole }).levels_in_use(),
            decreases self.runs.len() - i,
        {
            let ghost step = DataView { runs: whole.runs.subrange(0, i + 1), ..whole };
            assert(step.runs.drop_last() =~= whole.runs.subrange(0, i as int));
            assert(step.runs.last() == self.runs[i as int]);
            if self.runs[i].level + 1 > n {
                n = self.runs[i].level + 1;
            }
            i += 1;
        }
        assert(whole.runs.subrange(0, self.runs.len() as int) =~= whole.runs);
        n
    }

    /// Whether some version lies in the memtable's run.
    pub fn memtable_in_use(&self) -> (b: bool)
        ensures
            b == self@.memtable_in_use(),
    {
        let ghost vs = self.table.deep_view();
        let mut i: usize = 0;
        while i < self.table.len()
            invariant
                vs == self.table.deep_view(),
                i <= self.table.len(),
                forall|x: int| 0 <= x < i ==> (#[trigger] vs[x]).run != self.memtable_run,
            decreases self.table.len() - i,
        {
            assert(vs[i as int] == self.table[i as int]@);
            if self.table[i].run == self.memtable_run {
                return true;
            }
            i += 1;
        }
        false
    }

    /// Adds the version of a write with sequence number `sequence`, which no
    /// version of the column family has yet.
    pub fn write(&mut self, key: &[u8], sequence: u64, kind: WriteKind, value: &[u8])
        requires
            old(self)@.wf(),
            forall|i: int| 0 <= i < old(self)@.versions.len() ==> (#[trigger] old(self)@.versions[i]).sequence < sequence,
        ensures
            final(self)@ == old(self)@.written(key@, sequence, kind, value@),
            final(self)@.wf(),
            bounded_by(final(self)@.versions, sequence),
    {
        let v = Version {
            key: copy_bytes(key),
            sequence,
            kind,
            value: copy_bytes(value),
            run: self.memtable_run,
        };
        let ghost vs = self.table.deep_view();
        let ghost vv = v@;
        insert_version(&mut self.table, v);
        proof {
            let out = with_version(vs, vv);
            let r = rank(vs, vv.key, vv.sequence as int);
            crate::version::lemma_rank_boundary(vs, vv.key, vv.sequence as int);
            assert forall|i: int| 0 <= i < out.len() implies (#[trigger] out[i]).run
                < self.next_run && out[i].sequence <= sequence by {
                if i < r {
                    assert(out[i] == vs[i]);
                } else if i > r {
                    assert(out[i] == vs[i - 1]);
                }
            }
        }
    }

    /// Moves the memtable's run, if it holds a version, to the flushed runs.
    /// Fails where no further run number can be given.
    pub fn flush(&mut self) -> (r: Result<(), Error>)
        requires
            old(self)@.wf(),
        ensures
            final(self)@.wf(),
            final(self)@.versions == old(self)@.versions,
            match r {
                Ok(_) => final(self)@ == old(self)@.flushed() && !(old(self)@.memtable_in_use()
                    && old(self)@.next_run == u64::MAX),
                Err(e) => {
                    &&& final(self)@ == old(self)@
                    &&& e == Error::IOError
                    &&& old(self)@.memtable_in_use()
                    &&& old(self)@.next_run == u64::MAX
                },
            },
    {
        if self.memtable_in_use() {
            if self.next_run == u64::MAX {
                return Err(Error::IOError);
            }
            self.runs.push(RunInfo { id: self.memtable_run, level: 0 });
            self.memtable_run = self.next_run;
            self.next_run = self.next_run + 1;
        }
        Ok(())
    }
}

/// The options of a column family, with the capabilities that its names
/// stand for.
pub struct ColumnFamilyOptions<'a> {
    identity: FamilyIdentity,
    merge_operator: Option<&'a dyn MergeOperator>,
    prefix_extractor: Option<&'a dyn SliceTransform>,
    compaction_filter: Option<Box<dyn CompactionFilter>>,
    memtable_factory: MemtableFactory,
}

/// The name has a zero byte in it: it cannot name a capability.
pub open spec fn has_nul(name: &str) -> bool {
    name.spec_bytes().contains(0u8)
}

/// Whether the name has a zero byte in it.
pub fn name_has_nul(name: &str) -> (b: bool)
    ensures
        b == has_nul(name),
{
    let bytes = name.as_bytes();
    let mut i: usize = 0;
    while i < bytes.len()
        invariant
            i <= bytes.len(),
            bytes@ == name.spec_bytes(),
            forall|x: int| 0 <= x < i ==> bytes@[x] != 0u8,
        decreases bytes.len() - i,
    {
        if bytes[i] == 0 {
            return true;
        }
        i += 1;
    }
    false
}

impl<'a> ColumnFamilyOptions<'a> {
    /// The configuration identity that these options give.
    pub closed spec fn identity(&self) -> IdentityView {
        self.identity@
    }

    /// The merge operator, if one is set.
    pub closed spec fn operator(&self) -> Option<&'a dyn MergeOperator> {
        self.merge_operator
    }

    /// The prefix extractor, if one is set.
    pub closed spec fn transform(&self) -> Option<&'a dyn SliceTransform> {
        self.prefix_extractor
    }

    /// Whether a compaction filter is set.
    pub closed spec fn has_filter(&self) -> bool {
        self.compaction_filter is Some
    }

    /// The kind of memtable.
    pub closed spec fn memtable(&self) -> MemtableFactory {
        self.memtable_factory
    }

    /// Each capability is set exactly where its name is.
    pub closed spec fn wf(&self) -> bool {
        &&& self.identity.merge_operator is Some <==> self.merge_operator is Some
        &&& self.identity.prefix_extractor is Some <==> self.prefix_extractor is Some
        &&& self.identity.compaction_filter is Some <==> self.compaction_filter is Some
    }

    /// What `wf` says, over the public names.
    pub proof fn lemma_wf(&self)
        requires
            self.wf(),
        ensures
            self.identity().merge_operator is Some <==> self.operator() is Some,
            self.identity().prefix_extractor is Some <==> self.transform() is Some,
            self.identity().compaction_filter is Some <==> self.has_filter(),
    {
    }

    /// Default options: no operator, no extractor, no filter, seven levels,
    /// automatic compaction, a skip list as memtable.
    pub fn new() -> (r: ColumnFamilyOptions<'a>)
        ensures
            r.wf(),
            r.identity() == default_identity(),
            r.operator() is None,
            r.transform() is None,
            !r.has_filter(),
            r.memtable() == MemtableFactory::SkipList,
    {
        let identity = FamilyIdentity::new();
        ColumnFamilyOptions {
            identity,
            merge_operator: None,
            prefix_extractor: None,
            compaction_filter: None,
            memtable_factory: MemtableFactory::SkipList,
        }
    }

    /// Registers the merge operator under `name`.
    pub fn add_merge_operator(&mut self, name: &str, operator: &'a dyn MergeOperator)
        requires
            old(self).wf(),
        ensures
            final(self).wf(),
            final(self).operator() is Some,
            final(self).identity() == (IdentityView {
                merge_operator: Some(name@),
                ..old(self).identity()
            }),
            final(self).transform() == old(self).transform(),
            final(self).has_filter() == old(self).has_filter(),
            final(self).memtable() == old(self).memtable(),
    {
        self.identity.merge_operator = Some(name.to_owned());
        self.merge_operator = Some(operator);
    }

    /// Registers the prefix extractor under `name`. A name with a zero byte
    /// in it is refused.
    pub fn set_prefix_extractor(&mut self, name: &str, transform: &'a dyn SliceTransform) -> (r:
        Result<(), Error>)
        requires
            old(self).wf(),
        ensures
            final(self).wf(),
            final(self).operator() == old(self).operator(),
            final(self).has_filter() == old(self).has_filter(),
            final(self).memtable() == old(self).memtable(),
            match r {
                Ok(_) => !has_nul(name) && final(self).transform() is Some && final(self).identity() == (IdentityView {
                    prefix_extractor: Some(name@),
                    ..old(self).identity()
                }),
                Err(e) => has_nul(name) && e == Error::InvalidArgument && final(self).transform()
                    == old(self).transform() && final(self).identity() == old(self).identity(),
            },
    {
        if name_has_nul(name) {
            return Err(Error::InvalidArgument);
        }
        self.identity.prefix_extractor = Some(name.to_owned());
        self.prefix_extractor = Some(transform);
        Ok(())
    }

    /// Registers the compaction filter under `name`. A name with a zero byte
    /// in it is refused.
    pub fn set_compaction_filter<F: CompactionFilter + 'static>(&mut self, name: &str, filter: F) -> (r:
        Result<(), Error>)
        requires
            old(self).wf(),
        ensures
            final(self).wf(),
            final(self).operator() == old(self).operator(),
            final(self).transform() == old(self).transform(),
            final(self).memtable() == old(self).memtable(),
            match r {
                Ok(_) => !has_nul(name) && final(self).has_filter() && final(self).identity() == (
                IdentityView { compaction_filter: Some(name@), ..old(self).identity() }),
                Err(e) => has_nul(name) && e == Error::InvalidArgument && final(self).has_filter()
                    == old(self).has_filter() && final(self).identity() == old(self).identity(),
            },
    {
        if name_has_nul(name) {
            return Err(Error::InvalidArgument);
        }
        self.identity.compaction_filter = Some(name.to_owned());
        self.compaction_filter = Some(Box::new(filter));
        Ok(())
    }

    /// A copy of the configuration identity that these options give.
    pub fn identity_copy(&self) -> (r: FamilyIdentity)
        ensures
            r@ == self.identity(),
    {
        self.identity.duplicate()
    }

    /// The number of levels.
    pub fn num_levels(&self) -> (n: usize)
        ensures
            n == self.identity().num_levels,
    {
        self.identity.num_levels
    }

    /// The name under which the merge operator is registered, if one is.
    pub fn merge_operator_name(&self) -> (r: &Option<String>)
        ensures
            name_view(*r) == self.identity().merge_operator,
    {
        &self.identity.merge_operator
    }

    /// Sets the number of levels.
    pub fn set_num_levels(&mut self, n: usize)
        requires
            old(self).wf(),
        ensures
            final(self).wf(),
            final(self).identity() == (IdentityView { num_levels: n, ..old(self).identity() }),
            final(self).operator() == old(self).operator(),
            final(self).transform() == old(self).transform(),
            final(self).has_filter() == old(self).has_filter(),
            final(self).memtable() == old(self).memtable(),
    {
        self.identity.num_levels = n;
    }

    /// Switches automatic compaction off or on.
    pub fn set_disable_auto_compactions(&mut self, disable: bool)
        requires
            old(self).wf(),
        ensures
            final(self).wf(),
            final(self).identity() == (IdentityView {
                disable_auto_compactions: disable,
                ..old(self).identity()
            }),
            final(self).operator() == old(self).operator(),
            final(self).transform() == old(self).transform(),
            final(self).has_filter() == old(self).has_filter(),
            final(self).memtable() == old(self).memtable(),
    {
        self.identity.disable_auto_compactions = disable;
    }

    /// Makes the memtable a doubly linked skip list.
    pub fn set_doubly_skiplist(&mut self)
        requires
            old(self).wf(),
        ensures
            final(self).wf(),
            final(self).memtable() == MemtableFactory::DoublySkipList,
            final(self).identity() == old(self).identity(),
            final(self).operator() == old(self).operator(),
            final(self).transform() == old(self).transform(),
            final(self).has_filter() == old(self).has_filter(),
    {
        self.memtable_factory = MemtableFactory::DoublySkipList;
    }

    /// The name of the kind of memtable.
    pub fn get_memtable_factory_name(&self) -> (r: Option<&'static str>)
        ensures
            r is Some,
            self.memtable() == MemtableFactory::SkipList ==> r.unwrap()@ == "SkipListFactory"@,
            self.memtable() == MemtableFactory::DoublySkipList ==> r.unwrap()@
                == "DoublySkipListFactory"@,
    {
        match self.memtable_factory {
            MemtableFactory::SkipList => Some("SkipListFactory"),
            MemtableFactory::DoublySkipList => Some("DoublySkipListFactory"),
        }
    }
}

/// A column family of an open database: what is kept of it, and the
/// capabilities that its options gave.
pub struct ColumnFamily<'a> {
    pub data: FamilyData,
    pub merge_operator: Option<&'a dyn MergeOperator>,
    pub prefix_extractor: Option<&'a dyn SliceTransform>,
    pub compaction_filter: Option<Box<dyn CompactionFilter>>,
}

/// The mathematical value of a [`ColumnFamily`].
pub struct FamilyView<'a> {
    pub data: DataView,
    pub operator: Option<&'a dyn MergeOperator>,
    pub transform: Option<&'a dyn SliceTransform>,
    pub has_filter: bool,
}

impl<'a> View for ColumnFamily<'a> {
    type V = FamilyView<'a>;

    open spec fn view(&self) -> FamilyView<'a> {
        FamilyView {
            data: self.data@,
            operator: self.merge_operator,
            transform: self.prefix_extractor,
            has_filter: self.compaction_filter is Some,
        }
    }
}

impl<'a> FamilyView<'a> {
    /// What a reader at `horizon` sees of `key`.
    pub open spec fn value_at(self, key: Seq<u8>, horizon: int) -> Option<Seq<u8>> {
        match live_at(self.data.versions, self.operator, key, horizon) {
            Some(kv) => Some(kv.value),
            None => None,
        }
    }
}

impl<'a> ColumnFamily<'a> {
    /// A column family made of what is kept and of the options given for it.
    pub fn open(data: FamilyData, options: ColumnFamilyOptions<'a>) -> (r: ColumnFamily<'a>)
        ensures
            r@ == (FamilyView {
                data: DataView { identity: options.identity(), ..data@ },
                operator: options.operator(),
                transform: options.transform(),
                has_filter: options.has_filter(),
            }),
    {
        let mut data = data;
        data.identity = options.identity;
        ColumnFamily {
            data,
            merge_operator: options.merge_operator,
            prefix_extractor: options.prefix_extractor,
            compaction_filter: options.compaction_filter,
        }
    }

    /// Reads `key` at `horizon`.
    pub fn read(&self, key: &[u8], horizon: u64) -> (r: Option<KeyValue>)
        requires
            self@.data.wf(),
        ensures
            r.deep_view() == live_at(self@.data.versions, self@.operator, key@, horizon as int),
    {
        read_at(&self.data.table, self.merge_operator, key, horizon)
    }
}

} // verus!
