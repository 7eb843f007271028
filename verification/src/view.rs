//! The ordered view that an iterator ranges over.
//!
//! A view is taken of a table at a horizon: the live keys in ascending order,
//! each with the value that a reader at that horizon sees. It may be cut by
//! an upper bound, and it may be limited to the runs that hold a given prefix
//! bucket.

use vstd::prelude::*;
use crate::bytes::{key_equal, key_less, key_lt, lemma_key_lt_irreflexive, lemma_key_lt_transitive};
use crate::merge::{slice_option_view, MergeOperator};
use crate::prefix::SliceTransform;
use crate::read::{history, live_at, read_at, visible, KeyValue, KeyValueView};
use crate::version::{before, sorted, Version, VersionView};

verus! {

/// What limits a view: an exclusive upper bound on the keys, and the prefix
/// bucket whose runs are read.
pub struct Scope {
    pub upper: Option<Seq<u8>>,
    pub bucket: Option<Seq<u8>>,
}

/// The keys of the view ascend strictly.
pub open spec fn ascending(view: Seq<KeyValueView>) -> bool {
    forall|i: int, j: int|
        0 <= i < j < view.len() ==> key_lt((#[trigger] view[i]).key, (#[trigger] view[j]).key)
}

/// Run `run` holds a key of the bucket: the run is read when that bucket is
/// sought.
pub open spec fn run_selected<T: SliceTransform + ?Sized>(
    vs: Seq<VersionView>,
    t: &T,
    bucket: Seq<u8>,
    run: u64,
) -> bool {
    exists|y: int|
        0 <= y < vs.len() && (#[trigger] vs[y]).run == run && t.domain(vs[y].key) && t.prefix(
            vs[y].key,
        ) == bucket
}

/// Some version of `key` lies in a run that is read for the bucket.
pub open spec fn key_in_selected_run<T: SliceTransform + ?Sized>(
    vs: Seq<VersionView>,
    t: &T,
    bucket: Seq<u8>,
    key: Seq<u8>,
) -> bool {
    exists|x: int|
        0 <= x < vs.len() && (#[trigger] vs[x]).key == key && run_selected(vs, t, bucket, vs[x].run)
}

/// The scope lets `key` into the view.
pub open spec fn admits(
    vs: Seq<VersionView>,
    transform: Option<&dyn SliceTransform>,
    scope: Scope,
    key: Seq<u8>,
) -> bool {
    &&& scope.upper matches Some(u) ==> key_lt(key, u)
    &&& scope.bucket matches Some(b) ==> transform is Some && key_in_selected_run(
        vs,
        transform.unwrap(),
        b,
        key,
    )
}

/// The view holds `key`.
pub open spec fn has_key(view: Seq<KeyValueView>, key: Seq<u8>) -> bool {
    exists|i: int| 0 <= i < view.len() && (#[trigger] view[i]).key == key
}

/// `view` is the view of the table `vs` at `horizon` within `scope`: it
/// ascends, it holds only what a reader sees of admitted keys, and it holds
/// every admitted key that a reader sees.
pub open spec fn is_view_of(
    view: Seq<KeyValueView>,
    vs: Seq<VersionView>,
    operator: Option<&dyn MergeOperator>,
    horizon: int,
    transform: Option<&dyn SliceTransform>,
    scope: Scope,
) -> bool {
    &&& ascending(view)
    &&& forall|i: int|
        0 <= i < view.len() ==> admits(vs, transform, scope, (#[trigger] view[i]).key) && live_at(
            vs,
            operator,
            view[i].key,
            horizon,
        ) == Some(view[i])
    &&& forall|k: Seq<u8>|
        #![trigger has_key(view, k)]
        #![trigger live_at(vs, operator, k, horizon)]
        admits(vs, transform, scope, k) && live_at(vs, operator, k, horizon) is Some ==> has_key(
            view,
            k,
        )
}

/// A key that a reader sees has a version in the table.
pub proof fn lemma_live_key_is_stored(
    vs: Seq<VersionView>,
    operator: Option<&dyn MergeOperator>,
    key: Seq<u8>,
    horizon: int,
)
    requires
        live_at(vs, operator, key, horizon) is Some,
    ensures
        exists|x: int| 0 <= x < vs.len() && (#[trigger] vs[x]).key == key,
{
    let p = |e: VersionView| visible(e, key, horizon);
    let hist = history(vs, key, horizon);
    assert(hist.len() > 0);
    assert(hist.contains(hist[0]));
    vs.lemma_filter_contains_rev(p, hist[0]);
    vs.lemma_filter_pred(p, 0);
    let x = choose|x: int| 0 <= x < vs.len() && vs[x] == hist[0];
    assert(vs[x].key == key);
}

/// A table and a scope have one view: two views of the same are equal.
pub proof fn lemma_view_unique(
    a: Seq<KeyValueView>,
    b: Seq<KeyValueView>,
    vs: Seq<VersionView>,
    operator: Option<&dyn MergeOperator>,
    horizon: int,
    transform: Option<&dyn SliceTransform>,
    scope: Scope,
)
    requires
        is_view_of(a, vs, operator, horizon, transform, scope),
        is_view_of(b, vs, operator, horizon, transform, scope),
    ensures
        a == b,
{
    assert forall|i: int| 0 <= i < a.len() implies has_key(b, (#[trigger] a[i]).key) by {
        assert(live_at(vs, operator, a[i].key, horizon) is Some);
    }
    assert forall|j: int| 0 <= j < b.len() implies has_key(a, (#[trigger] b[j]).key) by {
        assert(live_at(vs, operator, b[j].key, horizon) is Some);
    }
    lemma_same_keys_same_places(a, b);
    assert forall|i: int| 0 <= i < a.len() implies a[i] == b[i] by {
        assert(live_at(vs, operator, a[i].key, horizon) == Some(a[i]));
        assert(live_at(vs, operator, b[i].key, horizon) == Some(b[i]));
    }
    assert(a =~= b);
}

proof fn lemma_ascending_drop_last(a: Seq<KeyValueView>)
    requires
        ascending(a),
        a.len() > 0,
    ensures
        ascending(a.drop_last()),
{
    let a1 = a.drop_last();
    assert forall|x: int, y: int| 0 <= x < y < a1.len() implies key_lt(
        (#[trigger] a1[x]).key,
        (#[trigger] a1[y]).key,
    ) by {
        assert(a1[x] == a[x] && a1[y] == a[y]);
    }
}

/// The last key of an ascending sequence that holds `key` is `key` or greater.
proof fn lemma_last_is_greatest(a: Seq<KeyValueView>, key: Seq<u8>)
    requires
        ascending(a),
        has_key(a, key),
    ensures
        a.len() > 0,
        a.last().key == key || key_lt(key, a.last().key),
        a.last().key != key ==> has_key(a.drop_last(), key),
{
    let i = choose|i: int| 0 <= i < a.len() && (#[trigger] a[i]).key == key;
    if i < a.len() - 1 {
        assert(key_lt(a[i].key, a[a.len() - 1].key));
        assert(a.drop_last()[i] == a[i]);
    }
}

/// Two ascending sequences that hold the same keys hold them at the same
/// indices.
proof fn lemma_same_keys_same_places(a: Seq<KeyValueView>, b: Seq<KeyValueView>)
    requires
        ascending(a),
        ascending(b),
        forall|i: int| 0 <= i < a.len() ==> has_key(b, (#[trigger] a[i]).key),
        forall|j: int| 0 <= j < b.len() ==> has_key(a, (#[trigger] b[j]).key),
    ensures
        a.len() == b.len(),
        forall|i: int| 0 <= i < a.len() ==> (#[trigger] a[i]).key == b[i].key,
    decreases a.len(),
{
    if a.len() == 0 {
        if b.len() > 0 {
            assert(has_key(a, b[0].key));
        }
    } else if b.len() == 0 {
        assert(has_key(b, a[0].key));
    } else {
        let ka = a.last().key;
        let kb = b.last().key;
        assert(has_key(b, a[a.len() - 1].key));
        assert(has_key(a, b[b.len() - 1].key));
        lemma_last_is_greatest(b, ka);
        lemma_last_is_greatest(a, kb);
        assert(ka == kb) by {
            lemma_key_lt_irreflexive(ka);
            if ka != kb {
                lemma_key_lt_transitive(ka, kb, ka);
            }
        }
        let a1 = a.drop_last();
        let b1 = b.drop_last();
        lemma_ascending_drop_last(a);
        lemma_ascending_drop_last(b);
        assert forall|x: int| 0 <= x < a1.len() implies has_key(b1, (#[trigger] a1[x]).key) by {
            assert(a1[x] == a[x]);
            assert(has_key(b, a[x].key));
            assert(key_lt(a[x].key, a[a.len() - 1].key));
            lemma_key_lt_irreflexive(ka);
            lemma_last_is_greatest(b, a[x].key);
        }
        assert forall|y: int| 0 <= y < b1.len() implies has_key(a1, (#[trigger] b1[y]).key) by {
            assert(b1[y] == b[y]);
            assert(has_key(a, b[y].key));
            assert(key_lt(b[y].key, b[b.len() - 1].key));
            lemma_key_lt_irreflexive(kb);
            lemma_last_is_greatest(a, b[y].key);
        }
        lemma_same_keys_same_places(a1, b1);
        assert forall|x: int| 0 <= x < a.len() implies (#[trigger] a[x]).key == b[x].key by {
            if x < a.len() - 1 {
                assert(a1[x] == a[x] && b1[x] == b[x]);
            }
        }
    }
}

/// Index `g` begins the versions of a key: it is an end of the table, or the
/// key before it is smaller.
pub open spec fn starts_group(vs: Seq<VersionView>, g: int) -> bool {
    0 <= g <= vs.len() && (g == 0 || g == vs.len() || key_lt(vs[g - 1].key, vs[g].key))
}

/// In a sorted table, keys do not descend.
pub proof fn lemma_sorted_keys(vs: Seq<VersionView>, x: int, y: int)
    requires
        sorted(vs),
        0 <= x <= y < vs.len(),
    ensures
        vs[x].key == vs[y].key || key_lt(vs[x].key, vs[y].key),
{
    if x < y {
        assert(before(vs[x], vs[y]));
    }
}

/// Before the start of a group all keys are smaller than the group's key.
pub proof fn lemma_group_start(vs: Seq<VersionView>, g: int, x: int)
    requires
        sorted(vs),
        starts_group(vs, g),
        0 <= x < g < vs.len(),
    ensures
        key_lt(vs[x].key, vs[g].key),
{
    lemma_sorted_keys(vs, x, g - 1);
    if vs[x].key != vs[g - 1].key {
        lemma_key_lt_transitive(vs[x].key, vs[g - 1].key, vs[g].key);
    }
}

/// `view` is the view of the keys that the table holds before index `g`.
pub open spec fn is_view_below(
    view: Seq<KeyValueView>,
    vs: Seq<VersionView>,
    operator: Option<&dyn MergeOperator>,
    horizon: int,
    transform: Option<&dyn SliceTransform>,
    scope: Scope,
    g: int,
) -> bool {
    &&& ascending(view)
    &&& forall|i: int|
        0 <= i < view.len() ==> admits(vs, transform, scope, (#[trigger] view[i]).key) && live_at(
            vs,
            operator,
            view[i].key,
            horizon,
        ) == Some(view[i])
    &&& forall|i: int|
        0 <= i < view.len() ==> exists|x: int|
            0 <= x < g && (#[trigger] vs[x]).key == (#[trigger] view[i]).key
    &&& forall|x: int|
        0 <= x < g && admits(vs, transform, scope, (#[trigger] vs[x]).key) && live_at(
            vs,
            operator,
            vs[x].key,
            horizon,
        ) is Some ==> has_key(view, vs[x].key)
}

/// A group that adds nothing to the view leaves it the view of what lies
/// before the next group.
proof fn lemma_view_skips_group(
    view: Seq<KeyValueView>,
    vs: Seq<VersionView>,
    operator: Option<&dyn MergeOperator>,
    horizon: int,
    transform: Option<&dyn SliceTransform>,
    scope: Scope,
    g: int,
    e: int,
)
    requires
        is_view_below(view, vs, operator, horizon, transform, scope, g),
        0 <= g < e <= vs.len(),
        forall|x: int| g <= x < e ==> (#[trigger] vs[x]).key == vs[g].key,
        !(admits(vs, transform, scope, vs[g].key) && live_at(vs, operator, vs[g].key, horizon)
            is Some),
    ensures
        is_view_below(view, vs, operator, horizon, transform, scope, e),
{
    assert forall|i: int| 0 <= i < view.len() implies exists|x: int|
        0 <= x < e && (#[trigger] vs[x]).key == (#[trigger] view[i]).key by {
        let x = choose|x: int| 0 <= x < g && (#[trigger] vs[x]).key == view[i].key;
        assert(0 <= x < e && vs[x].key == view[i].key);
    }
}

/// A group whose key a reader sees extends the view by that key.
proof fn lemma_view_takes_group(
    view: Seq<KeyValueView>,
    kv: KeyValueView,
    vs: Seq<VersionView>,
    operator: Option<&dyn MergeOperator>,
    horizon: int,
    transform: Option<&dyn SliceTransform>,
    scope: Scope,
    g: int,
    e: int,
)
    requires
        sorted(vs),
        starts_group(vs, g),
        is_view_below(view, vs, operator, horizon, transform, scope, g),
        0 <= g < e <= vs.len(),
        forall|x: int| g <= x < e ==> (#[trigger] vs[x]).key == vs[g].key,
        admits(vs, transform, scope, vs[g].key),
        live_at(vs, operator, vs[g].key, horizon) == Some(kv),
    ensures
        is_view_below(view.push(kv), vs, operator, horizon, transform, scope, e),
{
    let nv = view.push(kv);
    assert(kv.key == vs[g].key);
    assert forall|i: int, j: int| 0 <= i < j < nv.len() implies key_lt(
        (#[trigger] nv[i]).key,
        (#[trigger] nv[j]).key,
    ) by {
        assert(nv[i] == view[i]);
        if j < view.len() {
            assert(nv[j] == view[j]);
        } else {
            let x = choose|x: int| 0 <= x < g && (#[trigger] vs[x]).key == view[i].key;
            lemma_group_start(vs, g, x);
        }
    }
    assert forall|i: int| 0 <= i < nv.len() implies admits(
        vs,
        transform,
        scope,
        (#[trigger] nv[i]).key,
    ) && live_at(vs, operator, nv[i].key, horizon) == Some(nv[i]) by {
        if i < view.len() {
            assert(nv[i] == view[i]);
        }
    }
    assert forall|i: int| 0 <= i < nv.len() implies exists|x: int|
        0 <= x < e && (#[trigger] vs[x]).key == (#[trigger] nv[i]).key by {
        if i < view.len() {
            assert(nv[i] == view[i]);
            let x = choose|x: int| 0 <= x < g && (#[trigger] vs[x]).key == view[i].key;
            assert(0 <= x < e && vs[x].key == nv[i].key);
        } else {
            assert(0 <= g < e && vs[g].key == nv[i].key);
        }
    }
    assert forall|x: int|
        0 <= x < e && admits(vs, transform, scope, (#[trigger] vs[x]).key) && live_at(
            vs,
            operator,
            vs[x].key,
            horizon,
        ) is Some implies has_key(nv, vs[x].key) by {
        if x < g {
            assert(has_key(view, vs[x].key));
            let i = choose|i: int| 0 <= i < view.len() && (#[trigger] view[i]).key == vs[x].key;
            assert(nv[i] == view[i]);
        } else {
            assert(nv[nv.len() - 1].key == vs[x].key);
        }
    }
}

/// The view of what lies before the table's end is the view of the table.
proof fn lemma_view_complete(
    view: Seq<KeyValueView>,
    vs: Seq<VersionView>,
    operator: Option<&dyn MergeOperator>,
    horizon: int,
    transform: Option<&dyn SliceTransform>,
    scope: Scope,
)
    requires
        is_view_below(view, vs, operator, horizon, transform, scope, vs.len() as int),
    ensures
        is_view_of(view, vs, operator, horizon, transform, scope),
{
    assert forall|k: Seq<u8>|
        admits(vs, transform, scope, k) && live_at(vs, operator, k, horizon) is Some implies has_key(
        view,
        k,
    ) by {
        lemma_live_key_is_stored(vs, operator, k, horizon);
        let x = choose|x: int| 0 <= x < vs.len() && (#[trigger] vs[x]).key == k;
        assert(admits(vs, transform, scope, vs[x].key));
    }
}

/// Whether `runs` holds `run`.
pub fn holds_run(runs: &Vec<u64>, run: u64) -> (b: bool)
    ensures
        b == runs@.contains(run),
{
    let mut i: usize = 0;
    while i < runs.len()
        invariant
            i <= runs.len(),
            forall|x: int| 0 <= x < i ==> runs@[x] != run,
        decreases runs.len() - i,
    {
        if runs[i] == run {
            return true;
        }
        i += 1;
    }
    false
}

/// The runs of a sorted table that hold a key of the bucket.
pub fn selected_runs<T: SliceTransform + ?Sized>(
    table: &Vec<Version>,
    transform: &T,
    bucket: &[u8],
) -> (runs: Vec<u64>)
    ensures
        forall|r: u64|
            runs@.contains(r) <==> run_selected(table.deep_view(), transform, bucket@, r),
{
    let ghost vs = table.deep_view();
    let mut runs: Vec<u64> = Vec::new();
    let mut n: usize = 0;
    while n < table.len()
        invariant
            vs == table.deep_view(),
            n <= table.len(),
            forall|r: u64|
                runs@.contains(r) <==> exists|y: int|
                    0 <= y < n && (#[trigger] vs[y]).run == r && transform.domain(vs[y].key)
                        && transform.prefix(vs[y].key) == bucket@,
        decreases table.len() - n,
    {
        let ghost before_runs = runs@;
        assert(vs[n as int] == table[n as int]@);
        let mut hit = false;
        if transform.in_domain(table[n].key.as_slice()) {
            let p = transform.transform(table[n].key.as_slice());
            hit = key_equal(p, bucket);
        }
        if hit && !holds_run(&runs, table[n].run) {
            runs.push(table[n].run);
        }
        proof {
            let run = table[n as int].run;
            assert forall|r: u64| runs@.contains(r) <==> exists|y: int|
                0 <= y < n + 1 && (#[trigger] vs[y]).run == r && transform.domain(vs[y].key)
                    && transform.prefix(vs[y].key) == bucket@ by {
                if runs@.contains(r) {
                    if before_runs.contains(r) {
                        let y = choose|y: int|
                            0 <= y < n && (#[trigger] vs[y]).run == r && transform.domain(vs[y].key)
                                && transform.prefix(vs[y].key) == bucket@;
                        assert(0 <= y < n + 1 && vs[y].run == r);
                    } else {
                        let x = choose|x: int| 0 <= x < runs@.len() && runs@[x] == r;
                        if x < before_runs.len() {
                            assert(before_runs[x] == r);
                        }
                        assert(r == run && hit);
                        assert(vs[n as int].run == r);
                    }
                }
                if exists|y: int|
                    0 <= y < n + 1 && (#[trigger] vs[y]).run == r && transform.domain(vs[y].key)
                        && transform.prefix(vs[y].key) == bucket@ {
                    let y = choose|y: int|
                        0 <= y < n + 1 && (#[trigger] vs[y]).run == r && transform.domain(vs[y].key)
                            && transform.prefix(vs[y].key) == bucket@;
                    if y < n {
                        assert(before_runs.contains(r));
                        let x = choose|x: int| 0 <= x < before_runs.len() && before_runs[x] == r;
                        assert(runs@[x] == r);
                    } else {
                        assert(hit && r == run);
                        if before_runs.contains(run) {
                            let x = choose|x: int|
                                0 <= x < before_runs.len() && before_runs[x] == r;
                            assert(runs@[x] == r);
                        } else {
                            assert(runs@[runs@.len() - 1] == r);
                        }
                    }
                }
            }
        }
        n += 1;
    }
    proof {
        assert(vs.len() == n);
        assert forall|r: u64| runs@.contains(r) <==> run_selected(vs, transform, bucket@, r) by {
            if runs@.contains(r) {
                let y = choose|y: int|
                    0 <= y < n && (#[trigger] vs[y]).run == r && transform.domain(vs[y].key)
                        && transform.prefix(vs[y].key) == bucket@;
                assert(0 <= y < vs.len() && vs[y].run == r);
            }
            if run_selected(vs, transform, bucket@, r) {
                let y = choose|y: int|
                    0 <= y < vs.len() && (#[trigger] vs[y]).run == r && transform.domain(vs[y].key)
                        && transform.prefix(vs[y].key) == bucket@;
                assert(0 <= y < n && vs[y].run == r);
            }
        }
    }
    runs
}

/// The end of the versions of the key at `g`, and whether one of them lies
/// in a run of `runs`.
fn scan_group(table: &Vec<Version>, g: usize, runs: &Vec<u64>) -> (r: (usize, bool))
    requires
        sorted(table.deep_view()),
        starts_group(table.deep_view(), g as int),
        g < table.len(),
    ensures
        g < r.0 <= table.len(),
        starts_group(table.deep_view(), r.0 as int),
        forall|x: int|
            0 <= x < table.len() ==> ((#[trigger] table.deep_view()[x]).key
                == table.deep_view()[g as int].key <==> g <= x < r.0),
        r.1 <==> exists|x: int| g <= x < r.0 && runs@.contains((#[trigger] table.deep_view()[x]).run),
{
    let ghost vs = table.deep_view();
    let ghost key = vs[g as int].key;
    assert(vs[g as int] == table[g as int]@);
    let mut e: usize = g;
    let mut found = false;
    while e < table.len() && key_equal(table[e].key.as_slice(), table[g].key.as_slice())
        invariant
            vs == table.deep_view(),
            g <= e <= table.len(),
            g < table.len(),
            key == vs[g as int].key,
            key == table[g as int].key@,
            forall|x: int| g <= x < e ==> (#[trigger] vs[x]).key == key,
            found <==> exists|x: int| g <= x < e && runs@.contains((#[trigger] vs[x]).run),
        decreases table.len() - e,
    {
        assert(vs[e as int] == table[e as int]@);
        if holds_run(runs, table[e].run) {
            found = true;
        }
        e += 1;
    }
    proof {
        lemma_key_lt_irreflexive(key);
        if e < table.len() {
            assert(vs[e as int] == table[e as int]@);
            lemma_sorted_keys(vs, e - 1, e as int);
        }
        assert forall|x: int| 0 <= x < vs.len() implies ((#[trigger] vs[x]).key == key <==> g <= x
            < e) by {
            if x < g {
                lemma_group_start(vs, g as int, x);
            } else if x >= e {
                lemma_sorted_keys(vs, e as int, x);
                if vs[e as int].key != vs[x].key {
                    lemma_key_lt_transitive(key, vs[e as int].key, vs[x].key);
                }
            }
        }
    }
    (e, found)
}

/// Takes the view of a sorted table at `horizon`, below `upper` if that is
/// given, and of the runs that hold `bucket` if that is given.
pub fn materialize(
    table: &Vec<Version>,
    operator: Option<&dyn MergeOperator>,
    horizon: u64,
    transform: Option<&dyn SliceTransform>,
    upper: Option<&[u8]>,
    bucket: Option<&[u8]>,
) -> (view: Vec<KeyValue>)
    requires
        sorted(table.deep_view()),
        bucket is Some ==> transform is Some,
    ensures
        is_view_of(
            view.deep_view(),
            table.deep_view(),
            operator,
            horizon as int,
            transform,
            Scope { upper: slice_option_view(upper), bucket: slice_option_view(bucket) },
        ),
{
    let ghost vs = table.deep_view();
    let ghost scope = Scope { upper: slice_option_view(upper), bucket: slice_option_view(bucket) };
    let runs: Vec<u64> = match bucket {
        Some(b) => selected_runs(table, transform.unwrap(), b),
        None => Vec::new(),
    };
    let mut view: Vec<KeyValue> = Vec::new();
    let mut g: usize = 0;
    while g < table.len()
        invariant
            vs == table.deep_view(),
            sorted(vs),
            bucket is Some ==> transform is Some,
            scope == (Scope { upper: slice_option_view(upper), bucket: slice_option_view(bucket) }),
            bucket is Some ==> forall|r: u64|
                runs@.contains(r) <==> run_selected(vs, transform.unwrap(), bucket.unwrap()@, r),
            g <= table.len(),
            starts_group(vs, g as int),
            is_view_below(view.deep_view(), vs, operator, horizon as int, transform, scope, g as int),
        decreases table.len() - g,
    {
        assert(vs[g as int] == table[g as int]@);
        let (e, found) = scan_group(table, g, &runs);
        let key = table[g].key.as_slice();
        let below = match upper {
            Some(u) => key_less(key, u),
            None => true,
        };
        let admitted = below && (bucket.is_none() || found);
        proof {
            if bucket is Some {
                let t = transform.unwrap();
                let b = bucket.unwrap()@;
                if found {
                    let x = choose|x: int| g <= x < e && runs@.contains((#[trigger] vs[x]).run);
                    assert(vs[x].key == key@ && run_selected(vs, t, b, vs[x].run));
                }
                if key_in_selected_run(vs, t, b, key@) {
                    let x = choose|x: int|
                        0 <= x < vs.len() && (#[trigger] vs[x]).key == key@ && run_selected(
                            vs,
                            t,
                            b,
                            vs[x].run,
                        );
                    assert(runs@.contains(vs[x].run));
                }
            }
            assert(admitted == admits(vs, transform, scope, key@));
        }
        let ghost old_view = view.deep_view();
        let seen = if admitted {
            read_at(table, operator, key, horizon)
        } else {
            None
        };
        match seen {
            Some(kv) => {
                let ghost kvv = kv@;
                view.push(kv);
                proof {
                    assert(view.deep_view() =~= old_view.push(kvv));
                    lemma_view_takes_group(
                        old_view,
                        kvv,
                        vs,
                        operator,
                        horizon as int,
                        transform,
                        scope,
                        g as int,
                        e as int,
                    );
                }
            },
            None => {
                proof {
                    lemma_view_skips_group(
                        old_view,
                        vs,
                        operator,
                        horizon as int,
                        transform,
                        scope,
                        g as int,
                        e as int,
                    );
                }
            },
        }
        g = e;
    }
    proof {
        lemma_view_complete(view.deep_view(), vs, operator, horizon as int, transform, scope);
    }
    view
}

} // verus!
