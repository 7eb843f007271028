//! Versioned entries and the sorted table that holds them.
//!
//! Every write to a column family becomes a [`Version`]: the key, the
//! sequence number that the write was given, what kind of write it was, its
//! payload, and the run (the memtable or a flushed run) that holds it. A
//! column family keeps its versions in one table, sorted by key and, for one
//! key, from the newest version to the oldest.

use vstd::prelude::*;
use crate::bytes::{
    copy_bytes, key_lt, key_order, lemma_key_lt_asymmetric, lemma_key_lt_total,
    lemma_key_lt_transitive, KeyOrder,
};

verus! {

/// What a write does to its key.
#[derive(Clone, Copy, Debug, PartialEq, Eq, Structural)]
pub enum WriteKind {
    /// Sets the value of the key.
    Put,
    /// Removes the key.
    Delete,
    /// Adds an operand that the merge operator folds into the value.
    Merge,
}

/// One versioned entry of a column family.
#[derive(Clone, Debug, PartialEq, Eq)]
pub struct Version {
    pub key: Vec<u8>,
    pub sequence: u64,
    pub kind: WriteKind,
    pub value: Vec<u8>,
    pub run: u64,
}

/// The mathematical value of a [`Version`].
pub struct VersionView {
    pub key: Seq<u8>,
    pub sequence: u64,
    pub kind: WriteKind,
    pub value: Seq<u8>,
    pub run: u64,
}

impl DeepView for Version {
    type V = VersionView;

    open spec fn deep_view(&self) -> VersionView {
        VersionView {
            key: self.key@,
            sequence: self.sequence,
            kind: self.kind,
            value: self.value@,
            run: self.run,
        }
    }
}

impl View for Version {
    type V = VersionView;

    open spec fn view(&self) -> VersionView {
        self.deep_view()
    }
}

/// `a` stands before `b` in a table: its key is smaller, or the keys are the
/// same and `a` is the newer version.
pub open spec fn before(a: VersionView, b: VersionView) -> bool {
    key_lt(a.key, b.key) || (a.key == b.key && a.sequence > b.sequence)
}

/// `e` stands before the slot of `key` at `horizon`: before every version of
/// `key` whose sequence number is at most `horizon`. A horizon of -1 names
/// the slot behind all versions of `key`.
pub open spec fn before_slot(e: VersionView, key: Seq<u8>, horizon: int) -> bool {
    key_lt(e.key, key) || (e.key == key && e.sequence > horizon)
}

/// The table is strictly sorted.
pub open spec fn sorted(vs: Seq<VersionView>) -> bool {
    forall|i: int, j: int| 0 <= i < j < vs.len() ==> before(#[trigger] vs[i], #[trigger] vs[j])
}

/// The number of versions of `vs` that stand before the slot of `key` at
/// `horizon`. In a sorted table this is the index of the slot.
pub open spec fn rank(vs: Seq<VersionView>, key: Seq<u8>, horizon: int) -> int
    decreases vs.len(),
{
    if vs.len() == 0 {
        0
    } else {
        rank(vs.drop_last(), key, horizon) + if before_slot(vs.last(), key, horizon) {
            1int
        } else {
            0int
        }
    }
}

/// The table `vs` with `v` added at its place.
pub open spec fn with_version(vs: Seq<VersionView>, v: VersionView) -> Seq<VersionView> {
    vs.insert(rank(vs, v.key, v.sequence as int), v)
}

/// No version of `vs` has the key and the sequence number of `v`.
pub open spec fn is_new(vs: Seq<VersionView>, v: VersionView) -> bool {
    forall|i: int| 0 <= i < vs.len() ==> !(#[trigger] vs[i].key == v.key && vs[i].sequence == v.sequence)
}

/// Every version of `vs` has a sequence number of at most `bound`.
pub open spec fn bounded_by(vs: Seq<VersionView>, bound: u64) -> bool {
    forall|i: int| 0 <= i < vs.len() ==> (#[trigger] vs[i]).sequence <= bound
}

pub proof fn lemma_before_transitive(a: VersionView, b: VersionView, c: VersionView)
    requires
        before(a, b),
        before(b, c),
    ensures
        before(a, c),
{
    if key_lt(a.key, b.key) && key_lt(b.key, c.key) {
        lemma_key_lt_transitive(a.key, b.key, c.key);
    }
}

pub proof fn lemma_before_slot_closed(a: VersionView, b: VersionView, key: Seq<u8>, horizon: int)
    requires
        before(a, b),
        before_slot(b, key, horizon),
    ensures
        before_slot(a, key, horizon),
{
    if key_lt(a.key, b.key) && key_lt(b.key, key) {
        lemma_key_lt_transitive(a.key, b.key, key);
    }
}

/// In a sorted table the versions before a slot are exactly those at the
/// indices below the slot's rank.
pub proof fn lemma_rank_boundary(vs: Seq<VersionView>, key: Seq<u8>, horizon: int)
    requires
        sorted(vs),
    ensures
        0 <= rank(vs, key, horizon) <= vs.len(),
        forall|x: int|
            0 <= x < vs.len() ==> (before_slot(#[trigger] vs[x], key, horizon) <==> x < rank(
                vs,
                key,
                horizon,
            )),
    decreases vs.len(),
{
    if vs.len() > 0 {
        let rest = vs.drop_last();
        assert(sorted(rest)) by {
            assert forall|i: int, j: int| 0 <= i < j < rest.len() implies before(
                #[trigger] rest[i],
                #[trigger] rest[j],
            ) by {
                assert(rest[i] == vs[i] && rest[j] == vs[j]);
            }
        }
        lemma_rank_boundary(rest, key, horizon);
        if before_slot(vs.last(), key, horizon) {
            assert forall|x: int| 0 <= x < rest.len() implies before_slot(
                #[trigger] rest[x],
                key,
                horizon,
            ) by {
                assert(before(vs[x], vs[vs.len() - 1]));
                lemma_before_slot_closed(vs[x], vs.last(), key, horizon);
            }
            if rank(rest, key, horizon) < rest.len() {
                assert(before_slot(rest[rank(rest, key, horizon)], key, horizon));
            }
        }
        assert forall|x: int| 0 <= x < vs.len() implies (before_slot(
            #[trigger] vs[x],
            key,
            horizon,
        ) <==> x < rank(vs, key, horizon)) by {
            if x < rest.len() {
                assert(rest[x] == vs[x]);
            }
        }
    }
}

/// An index that splits a sorted table into the versions before a slot and
/// the others is the slot's rank.
pub proof fn lemma_boundary_is_rank(vs: Seq<VersionView>, key: Seq<u8>, horizon: int, i: int)
    requires
        sorted(vs),
        0 <= i <= vs.len(),
        forall|x: int| 0 <= x < i ==> before_slot(#[trigger] vs[x], key, horizon),
        forall|x: int| i <= x < vs.len() ==> !before_slot(#[trigger] vs[x], key, horizon),
    ensures
        i == rank(vs, key, horizon),
{
    lemma_rank_boundary(vs, key, horizon);
    let r = rank(vs, key, horizon);
    if r < i {
        assert(before_slot(vs[r], key, horizon));
    }
    if i < r {
        assert(!before_slot(vs[i], key, horizon));
    }
}

/// Adding a new version at its rank keeps the table sorted.
pub proof fn lemma_with_version_sorted(vs: Seq<VersionView>, v: VersionView)
    requires
        sorted(vs),
        is_new(vs, v),
    ensures
        sorted(with_version(vs, v)),
        with_version(vs, v).len() == vs.len() + 1,
{
    let r = rank(vs, v.key, v.sequence as int);
    lemma_rank_boundary(vs, v.key, v.sequence as int);
    let out = with_version(vs, v);
    assert forall|i: int, j: int| 0 <= i < j < out.len() implies before(
        #[trigger] out[i],
        #[trigger] out[j],
    ) by {
        if j < r {
            assert(out[i] == vs[i] && out[j] == vs[j]);
        } else if j == r {
            assert(out[i] == vs[i]);
            assert(before_slot(vs[i], v.key, v.sequence as int));
        } else if i < r {
            assert(out[i] == vs[i] && out[j] == vs[j - 1]);
            if i < j - 1 {
            } else {
                assert(false);
            }
        } else if i == r {
            assert(out[j] == vs[j - 1]);
            let o = vs[j - 1];
            assert(!before_slot(o, v.key, v.sequence as int));
            lemma_key_lt_total(o.key, v.key);
        } else {
            assert(out[i] == vs[i - 1] && out[j] == vs[j - 1]);
        }
    }
}

impl Version {
    /// A copy of this version.
    pub fn duplicate(&self) -> (r: Version)
        ensures
            r@ == self@,
    {
        Version {
            key: copy_bytes(self.key.as_slice()),
            sequence: self.sequence,
            kind: self.kind,
            value: copy_bytes(self.value.as_slice()),
            run: self.run,
        }
    }

    /// Whether this version stands before `other` in a table.
    pub fn stands_before_version(&self, other: &Version) -> (r: bool)
        ensures
            r == before(self@, other@),
    {
        match key_order(self.key.as_slice(), other.key.as_slice()) {
            KeyOrder::Less => true,
            KeyOrder::Equal => {
                proof {
                    crate::bytes::lemma_key_lt_irreflexive(self.key@);
                }
                self.sequence > other.sequence
            },
            KeyOrder::Greater => {
                proof {
                    lemma_key_lt_asymmetric(self.key@, other.key@);
                }
                false
            },
        }
    }

    /// Whether this version stands before the slot of `key` at `horizon`.
    pub fn stands_before(&self, key: &[u8], horizon: u64) -> (r: bool)
        ensures
            r == before_slot(self@, key@, horizon as int),
    {
        match key_order(self.key.as_slice(), key) {
            KeyOrder::Less => true,
            KeyOrder::Equal => self.sequence > horizon,
            KeyOrder::Greater => {
                proof {
                    lemma_key_lt_asymmetric(self.key@, key@);
                }
                false
            },
        }
    }
}

/// The index of the slot of `key` at `horizon` in a sorted table: the index
/// of the newest version of `key` that a reader at `horizon` sees, if there
/// is one.
pub fn lower_bound(table: &Vec<Version>, key: &[u8], horizon: u64) -> (i: usize)
    requires
        sorted(table.deep_view()),
    ensures
        i == rank(table.deep_view(), key@, horizon as int),
        i <= table.len(),
{
    let ghost vs = table.deep_view();
    let mut lo: usize = 0;
    let mut hi: usize = table.len();
    while lo < hi
        invariant
            vs == table.deep_view(),
            sorted(vs),
            lo <= hi <= table.len(),
            forall|x: int| 0 <= x < lo ==> before_slot(#[trigger] vs[x], key@, horizon as int),
            forall|x: int| hi <= x < vs.len() ==> !before_slot(#[trigger] vs[x], key@, horizon as int),
        decreases hi - lo,
    {
        let mid = lo + (hi - lo) / 2;
        assert(vs[mid as int] == table[mid as int]@);
        if table[mid].stands_before(key, horizon) {
            assert forall|x: int| 0 <= x < mid + 1 implies before_slot(
                #[trigger] vs[x],
                key@,
                horizon as int,
            ) by {
                if x < mid {
                    assert(before(vs[x], vs[mid as int]));
                    lemma_before_slot_closed(vs[x], vs[mid as int], key@, horizon as int);
                }
            }
            lo = mid + 1;
        } else {
            assert forall|x: int| mid <= x < vs.len() implies !before_slot(
                #[trigger] vs[x],
                key@,
                horizon as int,
            ) by {
                if mid < x && before_slot(vs[x], key@, horizon as int) {
                    assert(before(vs[mid as int], vs[x]));
                    lemma_before_slot_closed(vs[mid as int], vs[x], key@, horizon as int);
                }
            }
            hi = mid;
        }
    }
    proof {
        lemma_boundary_is_rank(vs, key@, horizon as int, lo as int);
    }
    lo
}

/// Adds a version to a sorted table, at its place.
pub fn insert_version(table: &mut Vec<Version>, v: Version)
    requires
        sorted(old(table).deep_view()),
        is_new(old(table).deep_view(), v@),
    ensures
        final(table).deep_view() == with_version(old(table).deep_view(), v@),
        sorted(final(table).deep_view()),
{
    let i = lower_bound(table, v.key.as_slice(), v.sequence);
    let ghost before_view = table.deep_view();
    let ghost vv = v@;
    table.insert(i, v);
    proof {
        let out = with_version(before_view, vv);
        assert(table.deep_view().len() == out.len());
        assert forall|x: int| 0 <= x < out.len() implies table.deep_view()[x] == out[x] by {
            if x < i {
                assert(table@[x] == old(table)@[x]);
            } else if x > i {
                assert(table@[x] == old(table)@[x - 1]);
            }
        }
        assert(table.deep_view() =~= out);
        lemma_with_version_sorted(before_view, vv);
    }
}

/// A table in which each version stands before the next is sorted.
pub proof fn lemma_neighbours_sorted(vs: Seq<VersionView>, i: int, j: int)
    requires
        forall|x: int| 0 <= x < vs.len() - 1 ==> before(#[trigger] vs[x], vs[x + 1]),
        0 <= i < j < vs.len(),
    ensures
        before(vs[i], vs[j]),
    decreases j - i,
{
    if i + 1 < j {
        lemma_neighbours_sorted(vs, i, j - 1);
        assert(before(vs[j - 1], vs[j - 1 + 1]));
        lemma_before_transitive(vs[i], vs[j - 1], vs[j]);
    } else {
        assert(before(vs[i], vs[i + 1]));
    }
}

/// Whether a table is sorted.
pub fn is_sorted(table: &Vec<Version>) -> (b: bool)
    ensures
        b == sorted(table.deep_view()),
{
    let ghost vs = table.deep_view();
    if table.len() == 0 {
        return true;
    }
    let mut i: usize = 0;
    while i < table.len() - 1
        invariant
            vs == table.deep_view(),
            i < table.len(),
            forall|x: int| 0 <= x < i ==> before(#[trigger] vs[x], vs[x + 1]),
        decreases table.len() - i,
    {
        assert(vs[i as int] == table[i as int]@);
        assert(vs[i + 1] == table[i + 1]@);
        if !table[i].stands_before_version(&table[i + 1]) {
            return false;
        }
        i += 1;
    }
    proof {
        assert forall|a: int, b: int| 0 <= a < b < vs.len() implies before(
            #[trigger] vs[a],
            #[trigger] vs[b],
        ) by {
            lemma_neighbours_sorted(vs, a, b);
        }
    }
    true
}

/// A copy of a table.
pub fn duplicate_table(table: &Vec<Version>) -> (r: Vec<Version>)
    ensures
        r.deep_view() == table.deep_view(),
{
    let mut r: Vec<Version> = Vec::new();
    let mut i: usize = 0;
    while i < table.len()
        invariant
            i <= table.len(),
            r.len() == i,
            forall|x: int| 0 <= x < i ==> (#[trigger] r[x])@ == table[x]@,
        decreases table.len() - i,
    {
        r.push(table[i].duplicate());
        i += 1;
    }
    assert(r.deep_view() =~= table.deep_view());
    r
}

} // verus!
