//! What holds of the engine as a whole: how writes, flushes and compactions
//! change what readers see.

use vstd::prelude::*;
use crate::bytes::{key_lt, lemma_key_lt_irreflexive};
use crate::compaction::{
    lemma_compaction_keeps_latest_reads, lemma_compaction_keeps_pinned_reads, offered,
};
use crate::db::DbView;
use crate::filter::DecisionView;
use crate::iterator::{
    backward_from, forward_from, lemma_backward_yields_reverse, lemma_forward_yields_view,
};
use crate::merge::MergeOperator;
use crate::options::CompactOptions;
use crate::prefix::SliceTransform;
use crate::range::{input_runs, range_compacted, task_of};
use crate::read::{
    base_value, history, lemma_filter_keeps_none, live_at, pending_operands, visible, KeyValueView,
};
use crate::version::{
    before_slot, lemma_rank_boundary, rank, sorted, with_version, VersionView, WriteKind,
};
use crate::view::{
    admits, ascending, has_key, is_view_of, lemma_live_key_is_stored, lemma_sorted_keys,
    lemma_view_unique, Scope,
};

verus! {

/// The history of a key after a write that is newer than every version: the
/// new version on top of the history before the write, for the readers that
/// see it; the history before the write, for the others.
pub proof fn lemma_history_after_write(
    vs: Seq<VersionView>,
    v: VersionView,
    key: Seq<u8>,
    horizon: int,
)
    requires
        sorted(vs),
        forall|x: int| 0 <= x < vs.len() ==> (#[trigger] vs[x]).sequence < v.sequence,
    ensures
        history(with_version(vs, v), key, horizon) == (if visible(v, key, horizon) {
            seq![v] + history(vs, key, horizon)
        } else {
            history(vs, key, horizon)
        }),
{
    let p = |e: VersionView| visible(e, key, horizon);
    let r = rank(vs, v.key, v.sequence as int);
    lemma_rank_boundary(vs, v.key, v.sequence as int);
    let head = vs.subrange(0, r);
    let tail = vs.subrange(r, vs.len() as int);
    assert(vs =~= head + tail);
    assert(with_version(vs, v) =~= head.push(v) + tail);
    Seq::filter_distributes_over_add(head.push(v), tail, p);
    Seq::filter_distributes_over_add(head, tail, p);
    head.lemma_filter_push(v, p);
    if visible(v, key, horizon) {
        assert forall|x: int| 0 <= x < head.len() implies !p(#[trigger] head[x]) by {
            assert(head[x] == vs[x]);
            assert(before_slot(vs[x], v.key, v.sequence as int));
            lemma_key_lt_irreflexive(key);
        }
        lemma_filter_keeps_none(head, p);
        assert(head.filter(p).push(v) + tail.filter(p) =~= seq![v] + (head.filter(p) + tail.filter(
            p,
        )));
    }
}

/// A write changes nothing of what a reader at an older horizon sees: a
/// snapshot taken before the write does not see it.
pub proof fn lemma_write_hidden_from_older_horizons(
    vs: Seq<VersionView>,
    v: VersionView,
    operator: Option<&dyn MergeOperator>,
    key: Seq<u8>,
    horizon: int,
)
    requires
        sorted(vs),
        forall|x: int| 0 <= x < vs.len() ==> (#[trigger] vs[x]).sequence < v.sequence,
        horizon < v.sequence,
    ensures
        live_at(with_version(vs, v), operator, key, horizon) == live_at(vs, operator, key, horizon),
{
    lemma_history_after_write(vs, v, key, horizon);
}

/// A write changes nothing of what a reader sees of the other keys.
pub proof fn lemma_write_leaves_other_keys(
    vs: Seq<VersionView>,
    v: VersionView,
    operator: Option<&dyn MergeOperator>,
    key: Seq<u8>,
    horizon: int,
)
    requires
        sorted(vs),
        forall|x: int| 0 <= x < vs.len() ==> (#[trigger] vs[x]).sequence < v.sequence,
        key != v.key,
    ensures
        live_at(with_version(vs, v), operator, key, horizon) == live_at(vs, operator, key, horizon),
{
    lemma_history_after_write(vs, v, key, horizon);
}

/// What a reader that sees a write sees of its key: the value that was put;
/// nothing after a delete; after a merge, the operands so far and the new
/// one, merged into the value below them.
pub proof fn lemma_write_is_seen(
    vs: Seq<VersionView>,
    v: VersionView,
    operator: Option<&dyn MergeOperator>,
    horizon: int,
)
    requires
        sorted(vs),
        forall|x: int| 0 <= x < vs.len() ==> (#[trigger] vs[x]).sequence < v.sequence,
        v.sequence <= horizon,
    ensures
        v.kind == WriteKind::Put ==> live_at(with_version(vs, v), operator, v.key, horizon) == Some(
            KeyValueView { key: v.key, value: v.value, sequence: v.sequence },
        ),
        v.kind == WriteKind::Delete ==> live_at(with_version(vs, v), operator, v.key, horizon)
            is None,
        v.kind == WriteKind::Merge && operator is Some ==> live_at(
            with_version(vs, v),
            operator,
            v.key,
            horizon,
        ) == Some(
            KeyValueView {
                key: v.key,
                value: operator.unwrap().merged(
                    v.key,
                    base_value(history(vs, v.key, horizon)),
                    pending_operands(history(vs, v.key, horizon)).push(v.value),
                ),
                sequence: v.sequence,
            },
        ),
{
    lemma_history_after_write(vs, v, v.key, horizon);
    let h = history(vs, v.key, horizon);
    let after = seq![v] + h;
    assert(after[0] == v);
    assert(after.drop_first() =~= h);
}

/// A write to a column family changes nothing of what a read at an older
/// horizon sees, in any column family: snapshots are isolated from the
/// writes that follow them.
pub proof fn law_writes_are_hidden_from_snapshots(
    db: DbView,
    id: u64,
    key: Seq<u8>,
    kind: WriteKind,
    value: Seq<u8>,
    other: u64,
    read_key: Seq<u8>,
    snapshot: u64,
)
    requires
        db.wf(),
        db.write_refusal(id, kind) is None,
        db.place_of(other) is Some,
        snapshot <= db.last_sequence,
    ensures
        db.written(id, key, kind, value).place_of(other) == db.place_of(other),
        db.written(id, key, kind, value).value_at(other, read_key, snapshot) == db.value_at(
            other,
            read_key,
            snapshot,
        ),
{
    let after = db.written(id, key, kind, value);
    let i = db.place_of(id).unwrap();
    let j = db.place_of(other).unwrap();
    lemma_written_places(db, id, key, kind, value, other);
    assert(db.data()[i] == db.families[i].data);
    if j == i {
        let v = VersionView {
            key,
            sequence: (db.last_sequence + 1) as u64,
            kind,
            value,
            run: db.families[i].data.memtable_run,
        };
        lemma_write_hidden_from_older_horizons(
            db.families[i].data.versions,
            v,
            db.families[i].operator,
            read_key,
            snapshot as int,
        );
    }
}

/// A write leaves every column family at its place.
proof fn lemma_written_places(
    db: DbView,
    id: u64,
    key: Seq<u8>,
    kind: WriteKind,
    value: Seq<u8>,
    other: u64,
)
    requires
        db.wf(),
        db.place_of(id) is Some,
        db.place_of(other) is Some,
    ensures
        db.written(id, key, kind, value).place_of(other) == db.place_of(other),
{
    let after = db.written(id, key, kind, value);
    let j = db.place_of(other).unwrap();
    assert(after.families[j].data.id == other);
    let k = after.place_of(other).unwrap();
    assert(after.families[k].data.id == db.families[k].data.id);
    assert(db.data()[j] == db.families[j].data);
    assert(db.data()[k] == db.families[k].data);
}

/// A read of the latest state sees the write that was made last: the value
/// that was put, or nothing after a delete.
pub proof fn law_latest_read_sees_the_write(
    db: DbView,
    id: u64,
    key: Seq<u8>,
    kind: WriteKind,
    value: Seq<u8>,
)
    requires
        db.wf(),
        db.write_refusal(id, kind) is None,
    ensures
        kind == WriteKind::Put ==> db.written(id, key, kind, value).value_at(
            id,
            key,
            db.written(id, key, kind, value).last_sequence,
        ) == Some(value),
        kind == WriteKind::Delete ==> db.written(id, key, kind, value).value_at(
            id,
            key,
            db.written(id, key, kind, value).last_sequence,
        ) is None,
{
    let after = db.written(id, key, kind, value);
    let i = db.place_of(id).unwrap();
    lemma_written_places(db, id, key, kind, value, id);
    assert(db.data()[i] == db.families[i].data);
    let v = VersionView {
        key,
        sequence: (db.last_sequence + 1) as u64,
        kind,
        value,
        run: db.families[i].data.memtable_run,
    };
    lemma_write_is_seen(
        db.families[i].data.versions,
        v,
        db.families[i].operator,
        after.last_sequence as int,
    );
}

/// A flush changes nothing of what any reader sees.
pub proof fn law_flush_keeps_reads(db: DbView, id: u64, other: u64, key: Seq<u8>, horizon: u64)
    requires
        db.wf(),
        db.place_of(id) is Some,
        db.place_of(other) is Some,
    ensures
        db.flushed(id).place_of(other) == db.place_of(other),
        db.flushed(id).value_at(other, key, horizon) == db.value_at(other, key, horizon),
{
    let after = db.flushed(id);
    let j = db.place_of(other).unwrap();
    assert(after.families[j].data.id == other);
    let k = after.place_of(other).unwrap();
    assert(after.families[k].data.id == db.families[k].data.id);
    assert(db.data()[j] == db.families[j].data);
    assert(db.data()[k] == db.families[k].data);
}

/// A compaction changes nothing of what a read through a pinned snapshot
/// sees, whatever the compaction filter decides: the versions that a
/// snapshot sees stay until the snapshot is released.
pub proof fn law_compaction_keeps_snapshot_reads(
    db: DbView,
    id: u64,
    options: CompactOptions,
    start: Option<Seq<u8>>,
    end: Option<Seq<u8>>,
    choice: Map<Seq<u8>, DecisionView>,
    key: Seq<u8>,
    snapshot: u64,
)
    requires
        db.wf(),
        db.place_of(id) is Some,
        db.snapshots.contains(snapshot),
    ensures
        db.range_compacted(id, options, start, end, choice).place_of(id) == db.place_of(id),
        db.range_compacted(id, options, start, end, choice).value_at(id, key, snapshot)
            == db.value_at(id, key, snapshot),
{
    let after = db.range_compacted(id, options, start, end, choice);
    let i = db.place_of(id).unwrap();
    assert(after.families[i].data.id == id);
    let k = after.place_of(id).unwrap();
    assert(db.data()[i] == db.families[i].data);
    assert(db.data()[k] == db.families[k].data);
    assert(after.families[k].data.id == db.families[k].data.id);
    assert(k == i);
    let family = db.families[i];
    let task = task_of(options, family.has_filter, start, end);
    let flushed = family.data.flushed();
    let inputs = input_runs(flushed, task);
    if inputs.len() > 0 {
        lemma_compaction_keeps_pinned_reads(
            flushed.versions,
            inputs,
            db.snapshots,
            flushed.next_run,
            choice,
            family.operator,
            key,
            snapshot,
        );
    }
}

/// A compaction whose filter keeps every entry that it is shown, and so every
/// compaction of a column family without a filter, changes nothing of what a
/// read of the latest state sees.
pub proof fn law_compaction_that_keeps_all_keeps_latest_reads(
    db: DbView,
    id: u64,
    options: CompactOptions,
    start: Option<Seq<u8>>,
    end: Option<Seq<u8>>,
    choice: Map<Seq<u8>, DecisionView>,
    key: Seq<u8>,
)
    requires
        db.wf(),
        db.place_of(id) is Some,
        ({
            let family = db.families[db.place_of(id).unwrap()];
            let flushed = family.data.flushed();
            let inputs = input_runs(flushed, task_of(options, family.has_filter, start, end));
            forall|x: int|
                0 <= x < flushed.versions.len() && offered(
                    flushed.versions,
                    inputs,
                    db.snapshots,
                    #[trigger] flushed.versions[x],
                ) ==> choice[flushed.versions[x].key] == DecisionView::Keep
        }),
    ensures
        db.range_compacted(id, options, start, end, choice).value_at(id, key, db.last_sequence)
            == db.value_at(id, key, db.last_sequence),
{
    let after = db.range_compacted(id, options, start, end, choice);
    let i = db.place_of(id).unwrap();
    assert(after.families[i].data.id == id);
    let k = after.place_of(id).unwrap();
    assert(db.data()[i] == db.families[i].data);
    assert(db.data()[k] == db.families[k].data);
    assert(after.families[k].data.id == db.families[k].data.id);
    assert(k == i);
    let family = db.families[i];
    let task = task_of(options, family.has_filter, start, end);
    let flushed = family.data.flushed();
    let inputs = input_runs(flushed, task);
    if inputs.len() > 0 {
        lemma_compaction_keeps_latest_reads(
            flushed.versions,
            inputs,
            db.snapshots,
            flushed.next_run,
            choice,
            family.operator,
            key,
            db.last_sequence,
        );
    }
}

/// The view of a table that holds one put for each of its keys, and nothing
/// else, is the table itself: every key that was put, in ascending order,
/// with the value that was put.
pub proof fn law_view_of_distinct_puts(
    vs: Seq<VersionView>,
    view: Seq<KeyValueView>,
    operator: Option<&dyn MergeOperator>,
    transform: Option<&dyn SliceTransform>,
    horizon: int,
)
    requires
        sorted(vs),
        forall|x: int| 0 <= x < vs.len() ==> (#[trigger] vs[x]).kind == WriteKind::Put
            && vs[x].sequence <= horizon,
        forall|x: int, y: int|
            0 <= x < y < vs.len() ==> (#[trigger] vs[x]).key != (#[trigger] vs[y]).key,
        is_view_of(view, vs, operator, horizon, transform, Scope { upper: None, bucket: None }),
    ensures
        view.len() == vs.len(),
        forall|x: int|
            0 <= x < vs.len() ==> (#[trigger] view[x]) == (KeyValueView {
                key: vs[x].key,
                value: vs[x].value,
                sequence: vs[x].sequence,
            }),
{
    let scope = Scope { upper: None, bucket: None };
    let all = Seq::new(
        vs.len(),
        |x: int| KeyValueView { key: vs[x].key, value: vs[x].value, sequence: vs[x].sequence },
    );
    assert forall|x: int, y: int| 0 <= x < y < all.len() implies key_lt(
        (#[trigger] all[x]).key,
        (#[trigger] all[y]).key,
    ) by {
        lemma_sorted_keys(vs, x, y);
    }
    assert forall|x: int| 0 <= x < all.len() implies admits(
        vs,
        transform,
        scope,
        (#[trigger] all[x]).key,
    ) && live_at(vs, operator, all[x].key, horizon) == Some(all[x]) by {
        lemma_single_version(vs, x, horizon);
        let h = history(vs, vs[x].key, horizon);
        assert(h[0] == vs[x]);
    }
    assert forall|k: Seq<u8>|
        admits(vs, transform, scope, k) && live_at(vs, operator, k, horizon) is Some implies has_key(
        all,
        k,
    ) by {
        lemma_live_key_is_stored(vs, operator, k, horizon);
        let x = choose|x: int| 0 <= x < vs.len() && (#[trigger] vs[x]).key == k;
        assert(all[x].key == k);
    }
    lemma_view_unique(view, all, vs, operator, horizon, transform, scope);
}

/// Where a key has one version, and a reader sees it, the key's history is
/// that version.
proof fn lemma_single_version(vs: Seq<VersionView>, x: int, horizon: int)
    requires
        sorted(vs),
        0 <= x < vs.len(),
        vs[x].sequence <= horizon,
        forall|a: int, b: int|
            0 <= a < b < vs.len() ==> (#[trigger] vs[a]).key != (#[trigger] vs[b]).key,
    ensures
        history(vs, vs[x].key, horizon) == seq![vs[x]],
{
    let key = vs[x].key;
    let p = |e: VersionView| visible(e, key, horizon);
    assert forall|y: int| 0 <= y < vs.len() implies (p(#[trigger] vs[y]) <==> x <= y < x + 1) by {
        if y < x {
            assert(vs[y].key != vs[x].key);
        } else if y > x {
            assert(vs[x].key != vs[y].key);
        }
    }
    crate::read::lemma_filter_is_range(vs, p, x, x + 1);
    assert(vs.subrange(x, x + 1) =~= seq![vs[x]]);
}

/// A full scan in either direction: without a fence, moving forward from the
/// first key yields the whole view in ascending order, and moving backward
/// from the last key yields the same entries in descending order.
pub proof fn law_scans_yield_the_view(
    view: Seq<KeyValueView>,
    transform: Option<&dyn SliceTransform>,
)
    requires
        ascending(view),
    ensures
        forward_from(view, transform, None, 0) == view,
        backward_from(view, transform, None, view.len() - 1) == view.reverse(),
{
    lemma_forward_yields_view(view, transform, 0);
    lemma_backward_yields_reverse(view, transform, view.len() - 1);
    assert(view.subrange(0, view.len() as int) =~= view);
}

/// Seeking again gives the same view: an iterator's view is a function of
/// what it pinned and of the seek.
pub proof fn law_reseek_gives_the_same_view(
    first: Seq<KeyValueView>,
    second: Seq<KeyValueView>,
    vs: Seq<VersionView>,
    operator: Option<&dyn MergeOperator>,
    horizon: int,
    transform: Option<&dyn SliceTransform>,
    scope: Scope,
)
    requires
        is_view_of(first, vs, operator, horizon, transform, scope),
        is_view_of(second, vs, operator, horizon, transform, scope),
    ensures
        first == second,
{
    lemma_view_unique(first, second, vs, operator, horizon, transform, scope);
}

/// An iterator that is made after a put sees it: its view, taken at the
/// horizon of the put or later and without bound or bucket, holds the key
/// with the value that was put.
pub proof fn law_new_iterator_sees_the_put(
    vs: Seq<VersionView>,
    v: VersionView,
    view: Seq<KeyValueView>,
    operator: Option<&dyn MergeOperator>,
    transform: Option<&dyn SliceTransform>,
    horizon: int,
)
    requires
        sorted(vs),
        forall|x: int| 0 <= x < vs.len() ==> (#[trigger] vs[x]).sequence < v.sequence,
        v.kind == WriteKind::Put,
        v.sequence <= horizon,
        is_view_of(
            view,
            with_version(vs, v),
            operator,
            horizon,
            transform,
            Scope { upper: None, bucket: None },
        ),
    ensures
        view.contains(KeyValueView { key: v.key, value: v.value, sequence: v.sequence }),
{
    lemma_write_is_seen(vs, v, operator, horizon);
    let scope = Scope { upper: None, bucket: None };
    let after = with_version(vs, v);
    assert(admits(after, transform, scope, v.key));
    assert(has_key(view, v.key));
    let i = choose|i: int| 0 <= i < view.len() && (#[trigger] view[i]).key == v.key;
    assert(live_at(after, operator, view[i].key, horizon) == Some(view[i]));
}

/// An iterator that was made before a write keeps its view: the view of the
/// versions that it pinned is also the view, at its horizon, of the versions
/// after the write.
pub proof fn law_old_iterator_keeps_its_view(
    vs: Seq<VersionView>,
    v: VersionView,
    view: Seq<KeyValueView>,
    operator: Option<&dyn MergeOperator>,
    transform: Option<&dyn SliceTransform>,
    horizon: int,
    upper: Option<Seq<u8>>,
)
    requires
        sorted(vs),
        forall|x: int| 0 <= x < vs.len() ==> (#[trigger] vs[x]).sequence < v.sequence,
        horizon < v.sequence,
        is_view_of(view, vs, operator, horizon, transform, Scope { upper: upper, bucket: None }),
    ensures
        is_view_of(
            view,
            with_version(vs, v),
            operator,
            horizon,
            transform,
            Scope { upper: upper, bucket: None },
        ),
{
    let scope = Scope { upper: upper, bucket: None };
    let after = with_version(vs, v);
    assert forall|k: Seq<u8>| live_at(after, operator, k, horizon) == live_at(
        vs,
        operator,
        k,
        horizon,
    ) by {
        lemma_write_hidden_from_older_horizons(vs, v, operator, k, horizon);
    }
    assert forall|i: int| 0 <= i < view.len() implies admits(
        after,
        transform,
        scope,
        (#[trigger] view[i]).key,
    ) && live_at(after, operator, view[i].key, horizon) == Some(view[i]) by {
        assert(admits(vs, transform, scope, view[i].key));
    }
    assert forall|k: Seq<u8>|
        admits(after, transform, scope, k) && live_at(
            after,
            operator,
            k,
            horizon,
        ) is Some implies has_key(view, k) by {
        assert(admits(vs, transform, scope, k));
        assert(live_at(vs, operator, k, horizon) is Some);
    }
}

} // verus!
