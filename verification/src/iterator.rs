//! The iterator: a cursor over the ordered view of a column family.
//!
//! An iterator pins the versions of its column family when it is made, and a
//! horizon. It is invalid until it is sought. A seek takes the view that it
//! ranges over, and places the cursor; `next` and `prev` move the cursor by
//! one key. A cursor that runs off the view, or out of its prefix bucket
//! where the options say so, is invalid, and stays so until the next seek.

use vstd::prelude::*;
use crate::bytes::{
    copy_bytes, key_equal, key_le, key_less, key_lt, lemma_key_lt_asymmetric,
    lemma_key_lt_irreflexive, lemma_key_lt_total, lemma_key_lt_transitive,
};
use crate::error::Error;
use crate::merge::MergeOperator;
use crate::options::ReadOptions;
use crate::prefix::SliceTransform;
use crate::read::{KeyValue, KeyValueView};
use crate::version::{sorted, Version, VersionView};
use crate::view::{ascending, is_view_of, materialize, Scope};

verus! {

/// Where a seek goes.
#[derive(Clone, Copy, Debug)]
pub enum SeekKey<'a> {
    /// The smallest key.
    Start,
    /// The largest key.
    End,
    /// The given key.
    Key(&'a [u8]),
}

/// The mathematical value of a [`SeekKey`].
pub enum SeekTarget {
    Start,
    End,
    Key(Seq<u8>),
}

impl<'a> View for SeekKey<'a> {
    type V = SeekTarget;

    open spec fn view(&self) -> SeekTarget {
        match self {
            SeekKey::Start => SeekTarget::Start,
            SeekKey::End => SeekTarget::End,
            SeekKey::Key(k) => SeekTarget::Key(k@),
        }
    }
}

/// What an iterator pins when it is made, and never changes.
pub struct IteratorPins<'a> {
    /// The versions of the column family.
    pub source: Seq<VersionView>,
    /// The newest sequence number that the iterator sees.
    pub horizon: u64,
    pub operator: Option<&'a dyn MergeOperator>,
    pub transform: Option<&'a dyn SliceTransform>,
    pub upper: Option<Seq<u8>>,
    pub prefix_same_as_start: bool,
    pub total_order_seek: bool,
}

/// The prefix bucket that a seek reads: that of the key sought, where an
/// extractor is set, applies to the key, and total order is not asked for.
pub open spec fn seek_bucket(pins: IteratorPins, target: SeekTarget) -> Option<Seq<u8>> {
    match target {
        SeekTarget::Key(k) => if pins.transform is Some && !pins.total_order_seek
            && pins.transform.unwrap().domain(k) {
            Some(pins.transform.unwrap().prefix(k))
        } else {
            None
        },
        _ => None,
    }
}

/// The prefix bucket that the cursor may not leave after a seek.
pub open spec fn seek_fence(pins: IteratorPins, target: SeekTarget) -> Option<Seq<u8>> {
    if pins.prefix_same_as_start {
        seek_bucket(pins, target)
    } else {
        None
    }
}

/// What a seek ranges over.
pub open spec fn seek_scope(pins: IteratorPins, target: SeekTarget) -> Scope {
    Scope { upper: pins.upper, bucket: seek_bucket(pins, target) }
}

/// `key` lies inside the fence.
pub open spec fn within_fence(
    transform: Option<&dyn SliceTransform>,
    fence: Option<Seq<u8>>,
    key: Seq<u8>,
) -> bool {
    match fence {
        None => true,
        Some(b) => transform is Some && transform.unwrap().domain(key) && transform.unwrap().prefix(
            key,
        ) == b,
    }
}

/// The cursor at index `i`: valid if `i` lies in the view and its key inside
/// the fence.
pub open spec fn admit_at(
    domain: Seq<KeyValueView>,
    transform: Option<&dyn SliceTransform>,
    fence: Option<Seq<u8>>,
    i: int,
) -> Option<int> {
    if 0 <= i < domain.len() && within_fence(transform, fence, domain[i].key) {
        Some(i)
    } else {
        None
    }
}

/// The number of keys of the view that are smaller than `key`: in an
/// ascending view, the index of the smallest key that is `key` or greater.
pub open spec fn count_below(domain: Seq<KeyValueView>, key: Seq<u8>) -> int
    decreases domain.len(),
{
    if domain.len() == 0 {
        0
    } else {
        count_below(domain.drop_last(), key) + if key_lt(domain.last().key, key) {
            1int
        } else {
            0int
        }
    }
}

/// The index of the greatest key of an ascending view that is `key` or
/// smaller; -1 if there is none.
pub open spec fn floor_index(domain: Seq<KeyValueView>, key: Seq<u8>) -> int {
    let i = count_below(domain, key);
    if i < domain.len() && domain[i].key == key {
        i
    } else {
        i - 1
    }
}

/// The index at which a seek lands, before the fence is looked at. A forward
/// seek goes to the smallest key at or after the target, a backward seek to
/// the greatest key at or before it.
pub open spec fn landing(domain: Seq<KeyValueView>, target: SeekTarget, forward: bool) -> int {
    match target {
        SeekTarget::Start => 0,
        SeekTarget::End => domain.len() - 1,
        SeekTarget::Key(k) => if forward {
            count_below(domain, k)
        } else {
            floor_index(domain, k)
        },
    }
}

/// What a cursor at index `i` yields when it is moved forward until it is
/// invalid.
pub open spec fn forward_from(
    domain: Seq<KeyValueView>,
    transform: Option<&dyn SliceTransform>,
    fence: Option<Seq<u8>>,
    i: int,
) -> Seq<KeyValueView>
    decreases domain.len() - i,
{
    if 0 <= i < domain.len() && within_fence(transform, fence, domain[i].key) {
        seq![domain[i]] + forward_from(domain, transform, fence, i + 1)
    } else {
        Seq::empty()
    }
}

/// What a cursor at index `i` yields when it is moved backward until it is
/// invalid.
pub open spec fn backward_from(
    domain: Seq<KeyValueView>,
    transform: Option<&dyn SliceTransform>,
    fence: Option<Seq<u8>>,
    i: int,
) -> Seq<KeyValueView>
    decreases i + 1,
{
    if 0 <= i < domain.len() && within_fence(transform, fence, domain[i].key) {
        seq![domain[i]] + backward_from(domain, transform, fence, i - 1)
    } else {
        Seq::empty()
    }
}

/// The keys and values of a sequence of entries.
pub open spec fn pairs(s: Seq<KeyValueView>) -> Seq<(Seq<u8>, Seq<u8>)> {
    Seq::new(s.len(), |i: int| (s[i].key, s[i].value))
}

proof fn lemma_ascending_drop_last(a: Seq<KeyValueView>)
    requires
        ascending(a),
        a.len() > 0,
    ensures
        ascending(a.drop_last()),
{
    let a1 = a.drop_last();
    assert forall|x: int, y: int| 0 <= x < y < a1.len() implies key_lt(
        (#[trigger] a1[x]).key,
        (#[trigger] a1[y]).key,
    ) by {
        assert(a1[x] == a[x] && a1[y] == a[y]);
    }
}

/// In an ascending view the keys smaller than `key` are those at the indices
/// below `count_below`.
pub proof fn lemma_count_below(domain: Seq<KeyValueView>, key: Seq<u8>)
    requires
        ascending(domain),
    ensures
        0 <= count_below(domain, key) <= domain.len(),
        forall|x: int|
            0 <= x < domain.len() ==> (key_lt((#[trigger] domain[x]).key, key) <==> x
                < count_below(domain, key)),
    decreases domain.len(),
{
    if domain.len() > 0 {
        let rest = domain.drop_last();
        lemma_ascending_drop_last(domain);
        lemma_count_below(rest, key);
        let last = domain.len() - 1;
        if key_lt(domain.last().key, key) {
            assert forall|x: int| 0 <= x < rest.len() implies key_lt(
                (#[trigger] rest[x]).key,
                key,
            ) by {
                assert(key_lt(domain[x].key, domain[last].key));
                lemma_key_lt_transitive(domain[x].key, domain[last].key, key);
            }
            if count_below(rest, key) < rest.len() {
                assert(key_lt(rest[count_below(rest, key)].key, key));
            }
        }
        assert forall|x: int| 0 <= x < domain.len() implies (key_lt(
            (#[trigger] domain[x]).key,
            key,
        ) <==> x < count_below(domain, key)) by {
            if x < rest.len() {
                assert(rest[x] == domain[x]);
            }
        }
    }
}

/// An index that splits an ascending view into the keys below `key` and the
/// others is `count_below`.
pub proof fn lemma_split_is_count_below(domain: Seq<KeyValueView>, key: Seq<u8>, i: int)
    requires
        ascending(domain),
        0 <= i <= domain.len(),
        forall|x: int| 0 <= x < i ==> key_lt((#[trigger] domain[x]).key, key),
        forall|x: int| i <= x < domain.len() ==> !key_lt((#[trigger] domain[x]).key, key),
    ensures
        i == count_below(domain, key),
{
    lemma_count_below(domain, key);
    let c = count_below(domain, key);
    if c < i {
        assert(key_lt(domain[c].key, key));
    }
    if i < c {
        assert(!key_lt(domain[i].key, key));
    }
}

/// A forward seek to a key lands on the smallest key of the view that is the
/// key sought or greater; it lands behind the view if there is none.
pub proof fn lemma_seek_lands_on_ceiling(domain: Seq<KeyValueView>, key: Seq<u8>)
    requires
        ascending(domain),
    ensures
        ({
            let i = landing(domain, SeekTarget::Key(key), true);
            &&& 0 <= i <= domain.len()
            &&& i < domain.len() ==> key_le(key, domain[i].key)
            &&& forall|x: int|
                0 <= x < domain.len() && key_le(key, (#[trigger] domain[x]).key) ==> i <= x
                    && key_le(domain[i].key, domain[x].key)
        }),
{
    lemma_count_below(domain, key);
    let i = count_below(domain, key);
    if i < domain.len() {
        assert(!key_lt(domain[i].key, key));
        lemma_key_lt_total(domain[i].key, key);
    }
    assert forall|x: int|
        0 <= x < domain.len() && key_le(key, (#[trigger] domain[x]).key) implies i <= x && key_le(
        domain[i].key,
        domain[x].key,
    ) by {
        lemma_key_lt_asymmetric(domain[x].key, key);
        lemma_key_lt_irreflexive(key);
        assert(!key_lt(domain[x].key, key));
        if i < x {
            assert(key_lt(domain[i].key, domain[x].key));
        }
    }
}

/// A backward seek to a key lands on the greatest key of the view that is the
/// key sought or smaller; it lands before the view if there is none.
pub proof fn lemma_seek_for_prev_lands_on_floor(domain: Seq<KeyValueView>, key: Seq<u8>)
    requires
        ascending(domain),
    ensures
        ({
            let i = landing(domain, SeekTarget::Key(key), false);
            &&& -1 <= i < domain.len()
            &&& 0 <= i ==> key_le(domain[i].key, key)
            &&& forall|x: int|
                0 <= x < domain.len() && key_le((#[trigger] domain[x]).key, key) ==> x <= i
                    && key_le(domain[x].key, domain[i].key)
        }),
{
    lemma_count_below(domain, key);
    let c = count_below(domain, key);
    let i = floor_index(domain, key);
    if 0 <= i && i == c - 1 {
        assert(key_lt(domain[i].key, key));
    }
    assert forall|x: int|
        0 <= x < domain.len() && key_le((#[trigger] domain[x]).key, key) implies x <= i && key_le(
        domain[x].key,
        domain[i].key,
    ) by {
        if domain[x].key == key {
            lemma_key_lt_irreflexive(key);
            assert(!key_lt(domain[x].key, key));
            assert(x >= c);
            if x > c {
                assert(key_lt(domain[c].key, domain[x].key));
                assert(!key_lt(domain[c].key, key));
            }
            assert(x == c);
        } else {
            assert(x < c);
            if c < domain.len() && domain[c].key == key {
                assert(i == c);
                assert(key_lt(domain[x].key, domain[c].key));
            } else {
                if x < i {
                    assert(key_lt(domain[x].key, domain[i].key));
                }
            }
        }
    }
}

/// Without a fence, moving forward from the first key yields the whole view,
/// in ascending order.
pub proof fn lemma_forward_yields_view(
    domain: Seq<KeyValueView>,
    transform: Option<&dyn SliceTransform>,
    i: int,
)
    requires
        0 <= i <= domain.len(),
    ensures
        forward_from(domain, transform, None, i) == domain.subrange(i, domain.len() as int),
    decreases domain.len() - i,
{
    if i < domain.len() {
        lemma_forward_yields_view(domain, transform, i + 1);
        assert(seq![domain[i]] + domain.subrange(i + 1, domain.len() as int) =~= domain.subrange(
            i,
            domain.len() as int,
        ));
    } else {
        assert(domain.subrange(i, domain.len() as int) =~= Seq::<KeyValueView>::empty());
    }
}

/// Without a fence, moving backward from the last key yields the whole view
/// in descending order: what moving forward yields, reversed.
pub proof fn lemma_backward_yields_reverse(
    domain: Seq<KeyValueView>,
    transform: Option<&dyn SliceTransform>,
    i: int,
)
    requires
        -1 <= i < domain.len(),
    ensures
        backward_from(domain, transform, None, i) == domain.subrange(0, i + 1).reverse(),
    decreases i + 1,
{
    if i >= 0 {
        lemma_backward_yields_reverse(domain, transform, i - 1);
        assert(seq![domain[i]] + domain.subrange(0, i).reverse() =~= domain.subrange(
            0,
            i + 1,
        ).reverse());
    } else {
        assert(domain.subrange(0, i + 1).reverse() =~= Seq::<KeyValueView>::empty());
    }
}

/// The index of the smallest key of an ascending view that is `key` or
/// greater; the view's length if there is none.
pub fn ceiling_index(domain: &Vec<KeyValue>, key: &[u8]) -> (i: usize)
    requires
        ascending(domain.deep_view()),
    ensures
        i == count_below(domain.deep_view(), key@),
        i <= domain.len(),
{
    let ghost d = domain.deep_view();
    let mut lo: usize = 0;
    let mut hi: usize = domain.len();
    while lo < hi
        invariant
            d == domain.deep_view(),
            ascending(d),
            lo <= hi <= domain.len(),
            forall|x: int| 0 <= x < lo ==> key_lt((#[trigger] d[x]).key, key@),
            forall|x: int| hi <= x < d.len() ==> !key_lt((#[trigger] d[x]).key, key@),
        decreases hi - lo,
    {
        let mid = lo + (hi - lo) / 2;
        assert(d[mid as int] == domain[mid as int]@);
        if key_less(domain[mid].key.as_slice(), key) {
            assert forall|x: int| 0 <= x < mid + 1 implies key_lt((#[trigger] d[x]).key, key@) by {
                if x < mid {
                    assert(key_lt(d[x].key, d[mid as int].key));
                    lemma_key_lt_transitive(d[x].key, d[mid as int].key, key@);
                }
            }
            lo = mid + 1;
        } else {
            assert forall|x: int| mid <= x < d.len() implies !key_lt((#[trigger] d[x]).key, key@) by {
                if mid < x && key_lt(d[x].key, key@) {
                    assert(key_lt(d[mid as int].key, d[x].key));
                    lemma_key_lt_transitive(d[mid as int].key, d[x].key, key@);
                }
            }
            hi = mid;
        }
    }
    proof {
        lemma_split_is_count_below(d, key@, lo as int);
    }
    lo
}

/// A cursor over the ordered view of a column family.
pub struct DBIterator<'a> {
    table: Vec<Version>,
    horizon: u64,
    operator: Option<&'a dyn MergeOperator>,
    transform: Option<&'a dyn SliceTransform>,
    options: ReadOptions,
    domain: Vec<KeyValue>,
    fence: Option<Vec<u8>>,
    position: usize,
    valid: bool,
}

impl<'a> DBIterator<'a> {
    /// What the iterator pinned when it was made.
    pub closed spec fn pins(&self) -> IteratorPins<'a> {
        IteratorPins {
            source: self.table.deep_view(),
            horizon: self.horizon,
            operator: self.operator,
            transform: self.transform,
            upper: self.options.iterate_upper_bound.deep_view(),
            prefix_same_as_start: self.options.prefix_same_as_start,
            total_order_seek: self.options.total_order_seek,
        }
    }

    /// The view that the last seek took; empty before the first seek.
    pub closed spec fn domain(&self) -> Seq<KeyValueView> {
        self.domain.deep_view()
    }

    /// The prefix bucket that the cursor may not leave, if there is one.
    pub closed spec fn fence(&self) -> Option<Seq<u8>> {
        self.fence.deep_view()
    }

    /// The index of the cursor in the view, if the iterator is valid.
    pub closed spec fn cursor(&self) -> Option<int> {
        if self.valid {
            Some(self.position as int)
        } else {
            None
        }
    }

    /// The iterator's invariant: the pinned table is sorted, the view
    /// ascends, and a valid cursor stands on a key of the view inside the
    /// fence.
    pub closed spec fn wf(&self) -> bool {
        &&& sorted(self.table.deep_view())
        &&& ascending(self.domain.deep_view())
        &&& self.fence is Some ==> self.transform is Some
        &&& self.valid ==> admit_at(
            self.domain.deep_view(),
            self.transform,
            self.fence.deep_view(),
            self.position as int,
        ) is Some
    }

    /// What `wf` says of the cursor and the view.
    pub proof fn lemma_wf(&self)
        requires
            self.wf(),
        ensures
            sorted(self.pins().source),
            ascending(self.domain()),
            self.cursor() matches Some(i) ==> admit_at(
                self.domain(),
                self.pins().transform,
                self.fence(),
                i,
            ) == Some(i),
    {
    }

    /// An iterator over a pinned table. It is invalid until it is sought.
    pub fn new(
        table: Vec<Version>,
        horizon: u64,
        operator: Option<&'a dyn MergeOperator>,
        transform: Option<&'a dyn SliceTransform>,
        options: ReadOptions,
    ) -> (r: DBIterator<'a>)
        requires
            sorted(table.deep_view()),
        ensures
            r.wf(),
            r.pins() == (IteratorPins {
                source: table.deep_view(),
                horizon: horizon,
                operator: operator,
                transform: transform,
                upper: options.iterate_upper_bound.deep_view(),
                prefix_same_as_start: options.prefix_same_as_start,
                total_order_seek: options.total_order_seek,
            }),
            r.domain() == Seq::<KeyValueView>::empty(),
            r.cursor() is None,
    {
        let r = DBIterator {
            table,
            horizon,
            operator,
            transform,
            options,
            domain: Vec::new(),
            fence: None,
            position: 0,
            valid: false,
        };
        assert(r.domain.deep_view() =~= Seq::<KeyValueView>::empty());
        r
    }

    /// Whether `key` lies inside the fence.
    fn inside_fence(&self, key: &[u8]) -> (b: bool)
        requires
            self.fence is Some ==> self.transform is Some,
        ensures
            b == within_fence(self.transform, self.fence.deep_view(), key@),
    {
        match &self.fence {
            None => true,
            Some(bucket) => {
                assert(bucket.deep_view() =~= bucket@);
                let t = self.transform.unwrap();
                if t.in_domain(key) {
                    key_equal(t.transform(key), bucket.as_slice())
                } else {
                    false
                }
            },
        }
    }

    /// Takes the view for a seek to `key` and sets the fence.
    fn range_over(&mut self, key: &SeekKey)
        requires
            old(self).wf(),
        ensures
            final(self).pins() == old(self).pins(),
            sorted(final(self).table.deep_view()),
            final(self).fence is Some ==> final(self).transform is Some,
            is_view_of(
                final(self).domain(),
                old(self).pins().source,
                old(self).pins().operator,
                old(self).pins().horizon as int,
                old(self).pins().transform,
                seek_scope(old(self).pins(), key@),
            ),
            final(self).fence() == seek_fence(old(self).pins(), key@),
    {
        let bucket: Option<Vec<u8>> = match key {
            SeekKey::Key(k) => {
                match self.transform {
                    Some(t) => {
                        if !self.options.total_order_seek && t.in_domain(k) {
                            let b = copy_bytes(t.transform(k));
                            Some(b)
                        } else {
                            None
                        }
                    },
                    None => None,
                }
            },
            _ => None,
        };
        assert(bucket.deep_view() == seek_bucket(self.pins(), key@)) by {
            if let Some(b) = bucket {
                assert(b.deep_view() =~= b@);
            }
        }
        let upper: Option<&[u8]> = match &self.options.iterate_upper_bound {
            Some(u) => {
                assert(u.deep_view() =~= u@);
                Some(u.as_slice())
            },
            None => None,
        };
        let within: Option<&[u8]> = match &bucket {
            Some(b) => {
                assert(b.deep_view() =~= b@);
                Some(b.as_slice())
            },
            None => None,
        };
        let view = materialize(
            &self.table,
            self.operator,
            self.horizon,
            self.transform,
            upper,
            within,
        );
        self.domain = view;
        if self.options.prefix_same_as_start {
            self.fence = bucket;
        } else {
            self.fence = None;
        }
    }

    /// Places the cursor at `index`, if that is an index of the view and its
    /// key lies inside the fence.
    fn settle(&mut self, index: Option<usize>) -> (r: bool)
        requires
            sorted(old(self).table.deep_view()),
            ascending(old(self).domain.deep_view()),
            old(self).fence is Some ==> old(self).transform is Some,
        ensures
            final(self).wf(),
            final(self).pins() == old(self).pins(),
            final(self).domain() == old(self).domain(),
            final(self).fence() == old(self).fence(),
            final(self).cursor() == (match index {
                Some(i) => admit_at(
                    old(self).domain(),
                    old(self).pins().transform,
                    old(self).fence(),
                    i as int,
                ),
                None => None,
            }),
            r == (final(self).cursor() is Some),
    {
        match index {
            Some(i) => {
                if i < self.domain.len() {
                    assert(self.domain.deep_view()[i as int] == self.domain[i as int]@);
                    let inside = self.inside_fence(self.domain[i].key.as_slice());
                    self.position = i;
                    self.valid = inside;
                } else {
                    self.valid = false;
                }
            },
            None => {
                self.valid = false;
            },
        }
        self.valid
    }

    /// Seeks forward: to the smallest key, to the largest key, or to the
    /// smallest key that is the given key or greater. The iterator is valid
    /// if there is such a key, inside the fence where one is set.
    pub fn seek(&mut self, key: SeekKey) -> (r: Result<bool, Error>)
        requires
            old(self).wf(),
        ensures
            final(self).wf(),
            final(self).pins() == old(self).pins(),
            is_view_of(
                final(self).domain(),
                old(self).pins().source,
                old(self).pins().operator,
                old(self).pins().horizon as int,
                old(self).pins().transform,
                seek_scope(old(self).pins(), key@),
            ),
            final(self).fence() == seek_fence(old(self).pins(), key@),
            final(self).cursor() == admit_at(
                final(self).domain(),
                old(self).pins().transform,
                final(self).fence(),
                landing(final(self).domain(), key@, true),
            ),
            r == Ok::<bool, Error>(final(self).cursor() is Some),
    {
        self.range_over(&key);
        let index: Option<usize> = match key {
            SeekKey::Start => Some(0),
            SeekKey::End => if self.domain.len() > 0 {
                Some(self.domain.len() - 1)
            } else {
                None
            },
            SeekKey::Key(k) => Some(ceiling_index(&self.domain, k)),
        };
        Ok(self.settle(index))
    }

    /// Seeks backward: to the smallest key, to the largest key, or to the
    /// greatest key that is the given key or smaller. The iterator is valid
    /// if there is such a key, inside the fence where one is set.
    pub fn seek_for_prev(&mut self, key: SeekKey) -> (r: Result<bool, Error>)
        requires
            old(self).wf(),
        ensures
            final(self).wf(),
            final(self).pins() == old(self).pins(),
            is_view_of(
                final(self).domain(),
                old(self).pins().source,
                old(self).pins().operator,
                old(self).pins().horizon as int,
                old(self).pins().transform,
                seek_scope(old(self).pins(), key@),
            ),
            final(self).fence() == seek_fence(old(self).pins(), key@),
            final(self).cursor() == admit_at(
                final(self).domain(),
                old(self).pins().transform,
                final(self).fence(),
                landing(final(self).domain(), key@, false),
            ),
            r == Ok::<bool, Error>(final(self).cursor() is Some),
    {
        self.range_over(&key);
        let index: Option<usize> = match key {
            SeekKey::Start => Some(0),
            SeekKey::End => if self.domain.len() > 0 {
                Some(self.domain.len() - 1)
            } else {
                None
            },
            SeekKey::Key(k) => {
                let c = ceiling_index(&self.domain, k);
                if c < self.domain.len() && key_equal(self.domain[c].key.as_slice(), k) {
                    assert(self.domain.deep_view()[c as int] == self.domain[c as int]@);
                    Some(c)
                } else if c > 0 {
                    if c < self.domain.len() {
                        assert(self.domain.deep_view()[c as int] == self.domain[c as int]@);
                    }
                    Some(c - 1)
                } else {
                    if c < self.domain.len() {
                        assert(self.domain.deep_view()[c as int] == self.domain[c as int]@);
                    }
                    None
                }
            },
        };
        Ok(self.settle(index))
    }

    /// Moves the cursor to the next key. An invalid iterator stays invalid.
    pub fn next(&mut self) -> (r: Result<bool, Error>)
        requires
            old(self).wf(),
        ensures
            final(self).wf(),
            final(self).pins() == old(self).pins(),
            final(self).domain() == old(self).domain(),
            final(self).fence() == old(self).fence(),
            final(self).cursor() == (match old(self).cursor() {
                Some(i) => admit_at(
                    old(self).domain(),
                    old(self).pins().transform,
                    old(self).fence(),
                    i + 1,
                ),
                None => None,
            }),
            r == Ok::<bool, Error>(final(self).cursor() is Some),
    {
        if self.valid {
            let i = self.position;
            assert(i < self.domain.len());
            Ok(self.settle(Some(i + 1)))
        } else {
            Ok(false)
        }
    }

    /// Moves the cursor to the key before. An invalid iterator stays invalid.
    pub fn prev(&mut self) -> (r: Result<bool, Error>)
        requires
            old(self).wf(),
        ensures
            final(self).wf(),
            final(self).pins() == old(self).pins(),
            final(self).domain() == old(self).domain(),
            final(self).fence() == old(self).fence(),
            final(self).cursor() == (match old(self).cursor() {
                Some(i) => admit_at(
                    old(self).domain(),
                    old(self).pins().transform,
                    old(self).fence(),
                    i - 1,
                ),
                None => None,
            }),
            r == Ok::<bool, Error>(final(self).cursor() is Some),
    {
        if self.valid {
            let i = self.position;
            if i > 0 {
                Ok(self.settle(Some(i - 1)))
            } else {
                Ok(self.settle(None))
            }
        } else {
            Ok(false)
        }
    }

    /// Whether the cursor stands on a key.
    pub fn valid(&self) -> (r: Result<bool, Error>)
        ensures
            r == Ok::<bool, Error>(self.cursor() is Some),
    {
        Ok(self.valid)
    }

    /// The key under the cursor.
    pub fn key(&self) -> (k: &[u8])
        requires
            self.wf(),
            self.cursor() is Some,
        ensures
            k@ == self.domain()[self.cursor().unwrap()].key,
    {
        assert(self.domain.deep_view()[self.position as int] == self.domain[self.position as int]@);
        self.domain[self.position].key.as_slice()
    }

    /// The value under the cursor.
    pub fn value(&self) -> (v: &[u8])
        requires
            self.wf(),
            self.cursor() is Some,
        ensures
            v@ == self.domain()[self.cursor().unwrap()].value,
    {
        assert(self.domain.deep_view()[self.position as int] == self.domain[self.position as int]@);
        self.domain[self.position].value.as_slice()
    }

    /// The key and the value under the cursor, if the iterator is valid.
    pub fn kv(&self) -> (r: Option<(Vec<u8>, Vec<u8>)>)
        requires
            self.wf(),
        ensures
            r.deep_view() == (match self.cursor() {
                Some(i) => Some((self.domain()[i].key, self.domain()[i].value)),
                None => None,
            }),
    {
        if self.valid {
            assert(self.domain.deep_view()[self.position as int]
                == self.domain[self.position as int]@);
            let k = copy_bytes(self.domain[self.position].key.as_slice());
            let v = copy_bytes(self.domain[self.position].value.as_slice());
            assert(k.deep_view() =~= k@);
            assert(v.deep_view() =~= v@);
            Some((k, v))
        } else {
            None
        }
    }

    /// The sequence number of the version that gives the value under the
    /// cursor, if the iterator is valid.
    pub fn sequence(&self) -> (s: Option<u64>)
        requires
            self.wf(),
        ensures
            s == (match self.cursor() {
                Some(i) => Some(self.domain()[i].sequence),
                None => None,
            }),
    {
        if self.valid {
            assert(self.domain.deep_view()[self.position as int]
                == self.domain[self.position as int]@);
            Some(self.domain[self.position].sequence)
        } else {
            None
        }
    }

    /// Yields the keys and values from the cursor on, moving forward until
    /// the iterator is invalid.
    pub fn collect(&mut self) -> (r: Vec<(Vec<u8>, Vec<u8>)>)
        requires
            old(self).wf(),
        ensures
            final(self).wf(),
            final(self).pins() == old(self).pins(),
            final(self).domain() == old(self).domain(),
            final(self).fence() == old(self).fence(),
            final(self).cursor() is None,
            r.deep_view() == pairs(
                match old(self).cursor() {
                    Some(i) => forward_from(
                        old(self).domain(),
                        old(self).pins().transform,
                        old(self).fence(),
                        i,
                    ),
                    None => Seq::empty(),
                },
            ),
    {
        let mut out: Vec<(Vec<u8>, Vec<u8>)> = Vec::new();
        let ghost d = self.domain();
        let ghost t = self.pins().transform;
        let ghost f = self.fence();
        let ghost all = match self.cursor() {
            Some(i) => forward_from(d, t, f, i),
            None => Seq::empty(),
        };
        let ghost mut taken: Seq<KeyValueView> = Seq::empty();
        assert(out.deep_view() =~= pairs(taken));
        while self.valid
            invariant
                self.wf(),
                self.pins() == old(self).pins(),
                self.domain() == d,
                self.fence() == f,
                t == old(self).pins().transform,
                out.deep_view() == pairs(taken),
                all == taken + (match self.cursor() {
                    Some(i) => forward_from(d, t, f, i),
                    None => Seq::empty(),
                }),
            decreases
                    (match self.cursor() {
                        Some(i) => d.len() - i,
                        None => 0,
                    }),
        {
            let ghost i = self.position as int;
            assert(self.domain.deep_view()[i] == self.domain[i]@);
            let k = copy_bytes(self.domain[self.position].key.as_slice());
            let v = copy_bytes(self.domain[self.position].value.as_slice());
            let ghost before_out = out.deep_view();
            out.push((k, v));
            proof {
                let more = taken.push(d[i]);
                assert(out.deep_view() =~= pairs(more)) by {
                    assert(before_out.len() == pairs(taken).len());
                    assert(out.deep_view().len() == out.len());
                    assert(out.deep_view().len() == more.len());
                    assert forall|x: int| 0 <= x < more.len() implies out.deep_view()[x] == pairs(
                        more,
                    )[x] by {
                        if x < taken.len() {
                            assert(out.deep_view()[x] == before_out[x]);
                            assert(more[x] == taken[x]);
                        } else {
                            assert(k.deep_view() =~= k@);
                            assert(v.deep_view() =~= v@);
                        }
                    }
                }
                assert(taken + forward_from(d, t, f, i) =~= more + forward_from(d, t, f, i + 1));
                taken = more;
            }
            let _ = self.next();
            proof {
                if self.cursor() is None {
                    assert(forward_from(d, t, f, i + 1) =~= Seq::<KeyValueView>::empty());
                }
            }
        }
        proof {
            assert(all =~= taken);
        }
        out
    }
}

} // verus!
