//! Compaction: rewriting runs without changing what pinned readers see.
//!
//! A compaction takes some runs of a column family as its inputs and writes
//! what is left of them to one new run. A version of an input run goes where
//! a newer put or delete of its key is among the inputs and no snapshot is
//! pinned between the two: no reader that counts can see the older one. The
//! newest input version of a key is shown to the compaction filter where it
//! is a put that no snapshot can see, and the filter's decision is applied to
//! it.

use vstd::prelude::*;
use crate::bytes::{copy_bytes, key_equal, lemma_key_lt_irreflexive};
use crate::filter::{
    CompactionFilter, CompactionFilterDecision, CompactionFilterValueType, DecisionView,
};
use crate::merge::MergeOperator;
use crate::read::{
    history, lemma_chain, lemma_chain_length, lemma_filter_keeps_all, lemma_history_is_range,
    live_at, pending_operands, resolved, visible, KeyValue, KeyValueView,
};
use crate::snapshot::{pinned_between, pinned_from, SnapshotList};
use crate::version::{before, bounded_by, sorted, Version, VersionView, WriteKind};
use crate::view::{holds_run, lemma_group_start, lemma_sorted_keys, starts_group};

verus! {

/// The version lies in a run that the compaction reads.
pub open spec fn is_input(inputs: Seq<u64>, v: VersionView) -> bool {
    inputs.contains(v.run)
}

/// `s` shields `v`: it is a newer put or delete of the same key among the
/// inputs, and no snapshot is pinned from `v` up to `s`.
pub open spec fn shields(inputs: Seq<u64>, pins: Seq<u64>, s: VersionView, v: VersionView) -> bool {
    &&& s.key == v.key
    &&& s.sequence > v.sequence
    &&& is_input(inputs, s)
    &&& s.kind != WriteKind::Merge
    &&& !pinned_between(pins, v.sequence as int, s.sequence as int)
}

/// The compaction drops `v`: it is an input version that some version
/// shields.
pub open spec fn shadowed(
    vs: Seq<VersionView>,
    inputs: Seq<u64>,
    pins: Seq<u64>,
    v: VersionView,
) -> bool {
    is_input(inputs, v) && exists|j: int|
        0 <= j < vs.len() && shields(inputs, pins, #[trigger] vs[j], v)
}

/// The compaction shows `v` to the filter: it is the newest input version of
/// its key, a put, and no snapshot is pinned at or after it.
pub open spec fn offered(
    vs: Seq<VersionView>,
    inputs: Seq<u64>,
    pins: Seq<u64>,
    v: VersionView,
) -> bool {
    &&& is_input(inputs, v)
    &&& v.kind == WriteKind::Put
    &&& !pinned_from(pins, v.sequence as int)
    &&& forall|j: int|
        0 <= j < vs.len() && (#[trigger] vs[j]).key == v.key && is_input(inputs, vs[j])
            ==> vs[j].sequence <= v.sequence
}

/// The version after the filter's decision.
pub open spec fn decided(v: VersionView, d: DecisionView) -> VersionView {
    match d {
        DecisionView::Keep => v,
        DecisionView::Remove => VersionView { kind: WriteKind::Delete, value: Seq::empty(), ..v },
        DecisionView::ChangeValue(x) => VersionView { value: x, ..v },
    }
}

/// What the compaction writes for a version that it keeps: the version
/// itself if it is no input; else the version in the new run, after the
/// filter's decision if it was shown to the filter.
pub open spec fn rewritten(
    vs: Seq<VersionView>,
    inputs: Seq<u64>,
    pins: Seq<u64>,
    out_run: u64,
    choice: Map<Seq<u8>, DecisionView>,
    v: VersionView,
) -> VersionView {
    if !is_input(inputs, v) {
        v
    } else if offered(vs, inputs, pins, v) {
        decided(VersionView { run: out_run, ..v }, choice[v.key])
    } else {
        VersionView { run: out_run, ..v }
    }
}

/// The versions that the compaction keeps.
pub open spec fn keeps(vs: Seq<VersionView>, inputs: Seq<u64>, pins: Seq<u64>) -> spec_fn(
    VersionView,
) -> bool {
    |v: VersionView| !shadowed(vs, inputs, pins, v)
}

/// The versions that the compaction shows to the filter.
pub open spec fn offers(vs: Seq<VersionView>, inputs: Seq<u64>, pins: Seq<u64>) -> spec_fn(
    VersionView,
) -> bool {
    |v: VersionView| offered(vs, inputs, pins, v)
}

/// What the compaction writes for each version that it keeps.
pub open spec fn rewrites(
    vs: Seq<VersionView>,
    inputs: Seq<u64>,
    pins: Seq<u64>,
    out_run: u64,
    choice: Map<Seq<u8>, DecisionView>,
) -> spec_fn(VersionView) -> VersionView {
    |v: VersionView| rewritten(vs, inputs, pins, out_run, choice, v)
}

/// What the filter is shown of a version.
pub open spec fn shown() -> spec_fn(VersionView) -> KeyValueView {
    |v: VersionView| KeyValueView { key: v.key, value: v.value, sequence: v.sequence }
}

/// The table after a compaction of the runs `inputs` into the run `out_run`,
/// with the pinned horizons `pins`, where the filter decides `choice[k]`
/// about the version of key `k` that it is shown.
pub open spec fn compacted(
    vs: Seq<VersionView>,
    inputs: Seq<u64>,
    pins: Seq<u64>,
    out_run: u64,
    choice: Map<Seq<u8>, DecisionView>,
) -> Seq<VersionView> {
    vs.filter(keeps(vs, inputs, pins)).map_values(rewrites(vs, inputs, pins, out_run, choice))
}

/// What the filter is shown, in the order in which it is shown.
pub open spec fn offered_entries(vs: Seq<VersionView>, inputs: Seq<u64>, pins: Seq<u64>) -> Seq<
    KeyValueView,
> {
    vs.filter(offers(vs, inputs, pins)).map_values(shown())
}

/// What a compaction did: what it showed to the filter, and what the filter
/// decided about each.
pub struct CompactionReport {
    pub offered: Vec<KeyValue>,
    pub decisions: Vec<CompactionFilterDecision>,
}

/// Filtering and mapping one element more.
proof fn lemma_filter_map_step<A, B>(s: Seq<A>, i: int, p: spec_fn(A) -> bool, f: spec_fn(A) -> B)
    requires
        0 <= i < s.len(),
    ensures
        s.take(i + 1).filter(p).map_values(f) == (if p(s[i]) {
            s.take(i).filter(p).map_values(f).push(f(s[i]))
        } else {
            s.take(i).filter(p).map_values(f)
        }),
{
    assert(s.take(i + 1) =~= s.take(i).push(s[i]));
    s.take(i).lemma_filter_push(s[i], p);
    if p(s[i]) {
        assert(s.take(i).filter(p).push(s[i]).map_values(f) =~= s.take(i).filter(p).map_values(
            f,
        ).push(f(s[i])));
    }
}

/// Every element of a filtered sequence is an element of the sequence.
proof fn lemma_filtered_index<A>(s: Seq<A>, p: spec_fn(A) -> bool, y: int) -> (x: int)
    requires
        0 <= y < s.filter(p).len(),
    ensures
        0 <= x < s.len(),
        s[x] == s.filter(p)[y],
        p(s[x]),
{
    let e = s.filter(p)[y];
    assert(s.filter(p).contains(e));
    s.lemma_filter_contains_rev(p, e);
    s.lemma_filter_pred(p, y);
    choose|x: int| 0 <= x < s.len() && s[x] == e
}

/// In a sorted table the versions of a key that are newer than the version at
/// `i` stand between the start of the key's versions and `i`.
proof fn lemma_newer_stand_before(vs: Seq<VersionView>, g: int, i: int, x: int)
    requires
        sorted(vs),
        starts_group(vs, g),
        0 <= g <= i < vs.len(),
        vs[g].key == vs[i].key,
        0 <= x < vs.len(),
        vs[x].key == vs[i].key,
        vs[x].sequence >= vs[i].sequence,
        x != i,
    ensures
        g <= x < i,
        vs[x].sequence > vs[i].sequence,
{
    lemma_key_lt_irreflexive(vs[i].key);
    if x < g {
        lemma_group_start(vs, g, x);
    }
    if x > i {
        assert(before(vs[i], vs[x]));
    } else {
        assert(before(vs[x], vs[i]));
    }
}

/// Between the start of a key's versions and a later version of the key, all
/// versions are of that key and newer.
proof fn lemma_group_members(vs: Seq<VersionView>, g: int, i: int, x: int)
    requires
        sorted(vs),
        0 <= g <= x < i < vs.len(),
        vs[g].key == vs[i].key,
    ensures
        vs[x].key == vs[i].key,
        vs[x].sequence > vs[i].sequence,
{
    lemma_sorted_keys(vs, g, x);
    lemma_sorted_keys(vs, x, i);
    lemma_key_lt_irreflexive(vs[i].key);
    if vs[x].key != vs[i].key {
        if vs[g].key != vs[x].key {
            crate::bytes::lemma_key_lt_transitive(vs[g].key, vs[x].key, vs[i].key);
        }
    }
    assert(before(vs[x], vs[i]));
}

/// The closest newer put or delete among the inputs, within the versions of
/// the key from `g` up to `i`: its sequence number is `shield`.
pub open spec fn is_shield(
    vs: Seq<VersionView>,
    inputs: Seq<u64>,
    g: int,
    i: int,
    shield: Option<u64>,
) -> bool {
    match shield {
        Some(s) => {
            &&& exists|x: int|
                g <= x < i && is_input(inputs, #[trigger] vs[x]) && vs[x].kind != WriteKind::Merge
                    && vs[x].sequence == s
            &&& forall|y: int|
                g <= y < i && is_input(inputs, #[trigger] vs[y]) && vs[y].kind != WriteKind::Merge
                    ==> vs[y].sequence >= s
        },
        None => forall|y: int|
            g <= y < i ==> !(is_input(inputs, #[trigger] vs[y]) && vs[y].kind != WriteKind::Merge),
    }
}

/// An input version is dropped exactly where the closest newer put or delete
/// among the inputs has no snapshot pinned below it, down to the version.
proof fn lemma_shadow_check(
    vs: Seq<VersionView>,
    inputs: Seq<u64>,
    pins: Seq<u64>,
    g: int,
    i: int,
    shield: Option<u64>,
)
    requires
        sorted(vs),
        starts_group(vs, g),
        0 <= g <= i < vs.len(),
        vs[g].key == vs[i].key,
        is_shield(vs, inputs, g, i, shield),
        is_input(inputs, vs[i]),
    ensures
        shadowed(vs, inputs, pins, vs[i]) <==> (shield matches Some(s) && !pinned_between(
            pins,
            vs[i].sequence as int,
            s as int,
        )),
{
    let v = vs[i];
    if shadowed(vs, inputs, pins, v) {
        let j = choose|j: int| 0 <= j < vs.len() && shields(inputs, pins, #[trigger] vs[j], v);
        lemma_newer_stand_before(vs, g, i, j);
        assert(shield is Some);
        let s = shield.unwrap();
        assert(vs[j].sequence >= s);
        if pinned_between(pins, v.sequence as int, s as int) {
            let t = choose|t: int|
                0 <= t < pins.len() && v.sequence as int <= #[trigger] pins[t] < s as int;
            assert(v.sequence as int <= pins[t] < vs[j].sequence as int);
        }
    }
    if let Some(s) = shield {
        if !pinned_between(pins, v.sequence as int, s as int) {
            let x = choose|x: int|
                g <= x < i && is_input(inputs, #[trigger] vs[x]) && vs[x].kind != WriteKind::Merge
                    && vs[x].sequence == s;
            lemma_group_members(vs, g, i, x);
            assert(shields(inputs, pins, vs[x], v));
        }
    }
}

/// An input version is the newest input version of its key exactly where no
/// input version stands between the start of the key's versions and it.
proof fn lemma_offer_check(
    vs: Seq<VersionView>,
    inputs: Seq<u64>,
    pins: Seq<u64>,
    g: int,
    i: int,
    saw_input: bool,
)
    requires
        sorted(vs),
        starts_group(vs, g),
        0 <= g <= i < vs.len(),
        vs[g].key == vs[i].key,
        saw_input <==> exists|x: int| g <= x < i && is_input(inputs, #[trigger] vs[x]),
        is_input(inputs, vs[i]),
    ensures
        offered(vs, inputs, pins, vs[i]) <==> (!saw_input && vs[i].kind == WriteKind::Put
            && !pinned_from(pins, vs[i].sequence as int)),
        !saw_input ==> !shadowed(vs, inputs, pins, vs[i]),
{
    let v = vs[i];
    if saw_input {
        let x = choose|x: int| g <= x < i && is_input(inputs, #[trigger] vs[x]);
        lemma_group_members(vs, g, i, x);
    } else {
        assert forall|j: int|
            0 <= j < vs.len() && (#[trigger] vs[j]).key == v.key && is_input(
                inputs,
                vs[j],
            ) implies vs[j].sequence <= v.sequence by {
            if vs[j].sequence > v.sequence {
                lemma_newer_stand_before(vs, g, i, j);
            }
        }
        if shadowed(vs, inputs, pins, v) {
            let j = choose|j: int| 0 <= j < vs.len() && shields(inputs, pins, #[trigger] vs[j], v);
            lemma_newer_stand_before(vs, g, i, j);
        }
    }
}

/// A decision about the version at `i` changes nothing of what was written
/// for the versions before `i`.
proof fn lemma_choice_frame(
    vs: Seq<VersionView>,
    inputs: Seq<u64>,
    pins: Seq<u64>,
    out_run: u64,
    choice: Map<Seq<u8>, DecisionView>,
    d: DecisionView,
    i: int,
)
    requires
        sorted(vs),
        0 <= i < vs.len(),
        offered(vs, inputs, pins, vs[i]),
    ensures
        vs.take(i).filter(keeps(vs, inputs, pins)).map_values(
            rewrites(vs, inputs, pins, out_run, choice.insert(vs[i].key, d)),
        ) == vs.take(i).filter(keeps(vs, inputs, pins)).map_values(
            rewrites(vs, inputs, pins, out_run, choice),
        ),
{
    let kept = vs.take(i).filter(keeps(vs, inputs, pins));
    let more = choice.insert(vs[i].key, d);
    assert forall|y: int| 0 <= y < kept.len() implies rewritten(
        vs,
        inputs,
        pins,
        out_run,
        more,
        kept[y],
    ) == rewritten(vs, inputs, pins, out_run, choice, kept[y]) by {
        let x = lemma_filtered_index(vs.take(i), keeps(vs, inputs, pins), y);
        assert(vs.take(i)[x] == vs[x]);
        if offered(vs, inputs, pins, vs[x]) && vs[x].key == vs[i].key {
            assert(before(vs[x], vs[i]));
            lemma_key_lt_irreflexive(vs[i].key);
            assert(vs[x].sequence <= vs[i].sequence);
        }
    }
    assert(kept.map_values(rewrites(vs, inputs, pins, out_run, more)) =~= kept.map_values(
        rewrites(vs, inputs, pins, out_run, choice),
    ));
}

/// Each version of `out` has the key and the sequence number of a version
/// that stands before index `i` in `vs`.
pub open spec fn echoes(out: Seq<VersionView>, vs: Seq<VersionView>, i: int) -> bool {
    forall|y: int|
        0 <= y < out.len() ==> exists|x: int|
            0 <= x < i && (#[trigger] vs[x]).key == (#[trigger] out[y]).key && vs[x].sequence
                == out[y].sequence
}

/// Adding a version with the key and the sequence number of the version at
/// `i` to a sorted echo of the versions before `i` keeps it sorted.
proof fn lemma_echo_push(out: Seq<VersionView>, w: VersionView, vs: Seq<VersionView>, i: int)
    requires
        sorted(vs),
        sorted(out),
        echoes(out, vs, i),
        0 <= i < vs.len(),
        w.key == vs[i].key,
        w.sequence == vs[i].sequence,
    ensures
        sorted(out.push(w)),
        echoes(out.push(w), vs, i + 1),
{
    let more = out.push(w);
    assert forall|a: int, b: int| 0 <= a < b < more.len() implies before(
        #[trigger] more[a],
        #[trigger] more[b],
    ) by {
        if b < out.len() {
            assert(more[a] == out[a] && more[b] == out[b]);
        } else {
            assert(more[a] == out[a]);
            let x = choose|x: int|
                0 <= x < i && (#[trigger] vs[x]).key == out[a].key && vs[x].sequence
                    == out[a].sequence;
            assert(before(vs[x], vs[i]));
        }
    }
    assert forall|y: int| 0 <= y < more.len() implies exists|x: int|
        0 <= x < i + 1 && (#[trigger] vs[x]).key == (#[trigger] more[y]).key && vs[x].sequence
            == more[y].sequence by {
        if y < out.len() {
            assert(more[y] == out[y]);
            let x = choose|x: int|
                0 <= x < i && (#[trigger] vs[x]).key == out[y].key && vs[x].sequence
                    == out[y].sequence;
            assert(0 <= x < i + 1 && vs[x].key == more[y].key);
        } else {
            assert(0 <= i < i + 1 && vs[i].key == more[y].key);
        }
    }
}

/// An echo of the versions before `i` is one of the versions before `i + 1`.
proof fn lemma_echo_skip(out: Seq<VersionView>, vs: Seq<VersionView>, i: int)
    requires
        echoes(out, vs, i),
    ensures
        echoes(out, vs, i + 1),
{
    assert forall|y: int| 0 <= y < out.len() implies exists|x: int|
        0 <= x < i + 1 && (#[trigger] vs[x]).key == (#[trigger] out[y]).key && vs[x].sequence
            == out[y].sequence by {
        let x = choose|x: int|
            0 <= x < i && (#[trigger] vs[x]).key == out[y].key && vs[x].sequence
                == out[y].sequence;
        assert(0 <= x < i + 1 && vs[x].key == out[y].key);
    }
}

/// The closest newer put or delete among the inputs, one version further.
proof fn lemma_shield_step(
    vs: Seq<VersionView>,
    inputs: Seq<u64>,
    g: int,
    i: int,
    shield: Option<u64>,
)
    requires
        sorted(vs),
        0 <= g <= i < vs.len(),
        vs[g].key == vs[i].key,
        is_shield(vs, inputs, g, i, shield),
    ensures
        is_shield(
            vs,
            inputs,
            g,
            i + 1,
            if is_input(inputs, vs[i]) && vs[i].kind != WriteKind::Merge {
                Some(vs[i].sequence)
            } else {
                shield
            },
        ),
{
    assert forall|y: int| g <= y < i implies (#[trigger] vs[y]).sequence > vs[i].sequence by {
        lemma_group_members(vs, g, i, y);
    }
    if is_input(inputs, vs[i]) && vs[i].kind != WriteKind::Merge {
        assert(g <= i < i + 1 && is_input(inputs, vs[i]));
    } else {
        match shield {
            Some(s) => {
                let x = choose|x: int|
                    g <= x < i && is_input(inputs, #[trigger] vs[x]) && vs[x].kind
                        != WriteKind::Merge && vs[x].sequence == s;
                assert(g <= x < i + 1);
            },
            None => {},
        }
    }
}

/// Whether an input version was seen, one version further.
proof fn lemma_saw_step(vs: Seq<VersionView>, inputs: Seq<u64>, g: int, i: int, saw: bool)
    requires
        0 <= g <= i < vs.len(),
        saw <==> exists|x: int| g <= x < i && is_input(inputs, #[trigger] vs[x]),
    ensures
        (saw || is_input(inputs, vs[i])) <==> exists|x: int|
            g <= x < i + 1 && is_input(inputs, #[trigger] vs[x]),
{
    if is_input(inputs, vs[i]) {
        assert(g <= i < i + 1 && is_input(inputs, vs[i]));
    } else if saw {
        let x = choose|x: int| g <= x < i && is_input(inputs, #[trigger] vs[x]);
        assert(g <= x < i + 1);
    }
}

/// The decisions so far, for the entries shown so far.
pub open spec fn told(
    shown_so_far: Seq<KeyValueView>,
    decisions: Seq<DecisionView>,
    choice: Map<Seq<u8>, DecisionView>,
) -> bool {
    &&& decisions.len() == shown_so_far.len()
    &&& forall|x: int|
        0 <= x < shown_so_far.len() ==> choice.contains_key((#[trigger] shown_so_far[x]).key)
            && choice[shown_so_far[x].key] == decisions[x]
}

/// One more entry shown, and one more decision.
proof fn lemma_told_step(
    vs: Seq<VersionView>,
    inputs: Seq<u64>,
    pins: Seq<u64>,
    i: int,
    decisions: Seq<DecisionView>,
    choice: Map<Seq<u8>, DecisionView>,
    d: DecisionView,
)
    requires
        sorted(vs),
        0 <= i < vs.len(),
        offered(vs, inputs, pins, vs[i]),
        told(offered_upto(vs, inputs, pins, i), decisions, choice),
    ensures
        told(
            offered_upto(vs, inputs, pins, i).push(shown()(vs[i])),
            decisions.push(d),
            choice.insert(vs[i].key, d),
        ),
{
    let before_list = offered_upto(vs, inputs, pins, i);
    let list = before_list.push(shown()(vs[i]));
    let more = choice.insert(vs[i].key, d);
    assert forall|x: int| 0 <= x < list.len() implies more.contains_key((#[trigger] list[x]).key)
        && more[list[x].key] == decisions.push(d)[x] by {
        if x < before_list.len() {
            assert(list[x] == before_list[x]);
            // An entry shown before is of another key.
            let y = lemma_filtered_index(vs.take(i), offers(vs, inputs, pins), x);
            assert(vs.take(i)[y] == vs[y]);
            assert(before_list[x] == shown()(vs.take(i).filter(offers(vs, inputs, pins))[x]));
            if vs[y].key == vs[i].key {
                assert(before(vs[y], vs[i]));
                lemma_key_lt_irreflexive(vs[i].key);
                assert(vs[y].sequence <= vs[i].sequence);
            }
        }
    }
}

/// The version in the run `out_run`, after the decision `d` if one is given.
fn rewrite(v: &Version, out_run: u64, d: Option<&CompactionFilterDecision>) -> (w: Version)
    ensures
        w@ == (match d {
            Some(d) => decided(VersionView { run: out_run, ..v@ }, d@),
            None => VersionView { run: out_run, ..v@ },
        }),
{
    match d {
        Some(CompactionFilterDecision::Remove) => Version {
            key: copy_bytes(v.key.as_slice()),
            sequence: v.sequence,
            kind: WriteKind::Delete,
            value: Vec::new(),
            run: out_run,
        },
        Some(CompactionFilterDecision::ChangeValue(x)) => Version {
            key: copy_bytes(v.key.as_slice()),
            sequence: v.sequence,
            kind: v.kind,
            value: copy_bytes(x.as_slice()),
            run: out_run,
        },
        _ => Version {
            key: copy_bytes(v.key.as_slice()),
            sequence: v.sequence,
            kind: v.kind,
            value: copy_bytes(v.value.as_slice()),
            run: out_run,
        },
    }
}

/// The report tells what the filter decided: `choice` holds, for each entry
/// that was shown, the decision about it.
pub open spec fn tells(report: CompactionReport, choice: Map<Seq<u8>, DecisionView>) -> bool {
    told(report.offered.deep_view(), report.decisions.deep_view(), choice)
}

/// Compacts the runs `inputs` of a sorted table into the run `out_run` at
/// `level`, with the pinned horizons `pins`. The filter, if there is one, is
/// shown each entry of `offered_entries`, once and in order; without a
/// filter every entry is kept.
pub fn compact_table(
    table: &Vec<Version>,
    inputs: &Vec<u64>,
    pins: &SnapshotList,
    out_run: u64,
    level: usize,
    filter: &mut Option<Box<dyn CompactionFilter>>,
) -> (r: (Vec<Version>, CompactionReport))
    requires
        sorted(table.deep_view()),
    ensures
        sorted(r.0.deep_view()),
        echoes(r.0.deep_view(), table.deep_view(), table.len() as int),
        r.1.offered.deep_view() == offered_entries(table.deep_view(), inputs@, pins@),
        exists|choice: Map<Seq<u8>, DecisionView>|
            tells(r.1, choice) && r.0.deep_view() == #[trigger] compacted(
                table.deep_view(),
                inputs@,
                pins@,
                out_run,
                choice,
            ),
        *old(filter) is None ==> forall|x: int|
            0 <= x < r.1.decisions.len() ==> (#[trigger] r.1.decisions.deep_view()[x])
                == DecisionView::Keep,
        (*final(filter) is None) == (*old(filter) is None),
{
    let ghost vs = table.deep_view();
    let ghost ins = inputs@;
    let ghost ps = pins@;
    let ghost unfiltered = *filter is None;
    let mut out: Vec<Version> = Vec::new();
    let mut offered_list: Vec<KeyValue> = Vec::new();
    let mut decisions: Vec<CompactionFilterDecision> = Vec::new();
    let ghost mut choice: Map<Seq<u8>, DecisionView> = Map::empty();
    let ghost mut g: int = 0;
    let mut shield: Option<u64> = None;
    let mut saw_input = false;
    let mut i: usize = 0;
    proof {
        assert(vs.take(0) =~= Seq::<VersionView>::empty());
        reveal(Seq::filter);
        assert(out.deep_view() =~= compacted_upto(vs, ins, ps, out_run, choice, 0));
        assert(offered_list.deep_view() =~= offered_upto(vs, ins, ps, 0));
        assert(decisions.deep_view() =~= Seq::<DecisionView>::empty());
    }
    while i < table.len()
        invariant
            vs == table.deep_view(),
            ins == inputs@,
            ps == pins@,
            sorted(vs),
            i <= table.len(),
            unfiltered == (*filter is None),
            // within the versions of one key
            0 <= g <= i,
            starts_group(vs, g),
            i < vs.len() && g < i ==> vs[g].key == vs[i - 1].key,
            g == i ==> shield is None && !saw_input,
            g < i ==> is_shield(vs, ins, g, i as int, shield),
            g < i ==> (saw_input <==> exists|x: int| g <= x < i && is_input(ins, #[trigger] vs[x])),
            // what was written
            sorted(out.deep_view()),
            echoes(out.deep_view(), vs, i as int),
            out.deep_view() == compacted_upto(vs, ins, ps, out_run, choice, i as int),
            offered_list.deep_view() == offered_upto(vs, ins, ps, i as int),
            told(offered_list.deep_view(), decisions.deep_view(), choice),
            unfiltered ==> forall|x: int|
                0 <= x < decisions.len() ==> (#[trigger] decisions.deep_view()[x])
                    == DecisionView::Keep,
        decreases table.len() - i,
    {
        assert(vs[i as int] == table[i as int]@);
        if i > 0 {
            assert(vs[i - 1] == table[i - 1]@);
        }
        let new_group = i == 0 || !key_equal(
            table[i - 1].key.as_slice(),
            table[i].key.as_slice(),
        );
        if new_group {
            shield = None;
            saw_input = false;
            proof {
                if i > 0 {
                    lemma_sorted_keys(vs, i - 1, i as int);
                }
                g = i as int;
            }
        }
        proof {
            if g < i {
                assert(vs[g].key == vs[i as int].key);
            }
        }
        let v = &table[i];
        let input = holds_run(inputs, v.run);
        let ghost old_out = out.deep_view();
        let ghost old_offered = offered_list.deep_view();
        let ghost old_decisions = decisions.deep_view();
        let ghost old_choice = choice;
        proof {
            lemma_filter_map_step(
                vs,
                i as int,
                keeps(vs, ins, ps),
                rewrites(vs, ins, ps, out_run, choice),
            );
            lemma_filter_map_step(vs, i as int, offers(vs, ins, ps), shown());
        }
        if !input {
            out.push(v.duplicate());
            proof {
                assert(out.deep_view() =~= old_out.push(vs[i as int]));
                lemma_echo_push(old_out, vs[i as int], vs, i as int);
            }
        } else {
            proof {
                lemma_shadow_check(vs, ins, ps, g, i as int, shield);
                lemma_offer_check(vs, ins, ps, g, i as int, saw_input);
            }
            let dropped = match shield {
                Some(s) => !pins.pins_between(v.sequence, s),
                None => false,
            };
            let show = !saw_input && v.kind == WriteKind::Put && !pins.pins_from(v.sequence);
            if dropped {
                proof {
                    lemma_echo_skip(old_out, vs, i as int);
                }
            } else if show {
                let d = match filter {
                    Some(f) => f.featured_filter(
                        level,
                        v.key.as_slice(),
                        v.sequence,
                        v.value.as_slice(),
                        CompactionFilterValueType::Value,
                    ),
                    None => CompactionFilterDecision::Keep,
                };
                let w = rewrite(v, out_run, Some(&d));
                let ghost wv = w@;
                let ghost dv = d@;
                out.push(w);
                offered_list.push(
                    KeyValue {
                        key: copy_bytes(v.key.as_slice()),
                        value: copy_bytes(v.value.as_slice()),
                        sequence: v.sequence,
                    },
                );
                decisions.push(d);
                proof {
                    choice = old_choice.insert(vs[i as int].key, dv);
                    lemma_choice_frame(vs, ins, ps, out_run, old_choice, dv, i as int);
                    lemma_filter_map_step(
                        vs,
                        i as int,
                        keeps(vs, ins, ps),
                        rewrites(vs, ins, ps, out_run, choice),
                    );
                    assert(out.deep_view() =~= old_out.push(wv));
                    lemma_echo_push(old_out, wv, vs, i as int);
                    assert(offered_list.deep_view() =~= old_offered.push(shown()(vs[i as int])));
                    assert(decisions.deep_view() =~= old_decisions.push(dv));
                    lemma_told_step(vs, ins, ps, i as int, old_decisions, old_choice, dv);
                }
            } else {
                let w = rewrite(v, out_run, None);
                let ghost wv = w@;
                out.push(w);
                proof {
                    assert(out.deep_view() =~= old_out.push(wv));
                    lemma_echo_push(old_out, wv, vs, i as int);
                }
            }
        }
        // The state for the next version of the key.
        let ghost old_shield = shield;
        let ghost old_saw = saw_input;
        if input {
            saw_input = true;
            if v.kind != WriteKind::Merge {
                shield = Some(v.sequence);
            }
        }
        proof {
            lemma_shield_step(vs, ins, g, i as int, old_shield);
            lemma_saw_step(vs, ins, g, i as int, old_saw);
        }
        i += 1;
    }
    proof {
        assert(vs.take(vs.len() as int) =~= vs);
        assert(out.deep_view() == compacted(vs, ins, ps, out_run, choice));
        assert(offered_list.deep_view() == offered_entries(vs, ins, ps));
    }
    let report = CompactionReport { offered: offered_list, decisions };
    assert(tells(report, choice));
    (out, report)
}

/// What the compaction has written when it has gone through the versions
/// before index `i`.
pub open spec fn compacted_upto(
    vs: Seq<VersionView>,
    inputs: Seq<u64>,
    pins: Seq<u64>,
    out_run: u64,
    choice: Map<Seq<u8>, DecisionView>,
    i: int,
) -> Seq<VersionView> {
    vs.take(i).filter(keeps(vs, inputs, pins)).map_values(
        rewrites(vs, inputs, pins, out_run, choice),
    )
}

/// What the compaction has shown to the filter when it has gone through the
/// versions before index `i`.
pub open spec fn offered_upto(
    vs: Seq<VersionView>,
    inputs: Seq<u64>,
    pins: Seq<u64>,
    i: int,
) -> Seq<KeyValueView> {
    vs.take(i).filter(offers(vs, inputs, pins)).map_values(shown())
}

/// Mapping and filtering may change places where the mapping leaves the
/// filter's verdict alone.
proof fn lemma_map_filter_commute(
    s: Seq<VersionView>,
    f: spec_fn(VersionView) -> VersionView,
    p: spec_fn(VersionView) -> bool,
)
    requires
        forall|e: VersionView| #[trigger] p(f(e)) == p(e),
    ensures
        s.map_values(f).filter(p) == s.filter(p).map_values(f),
    decreases s.len(),
{
    if s.len() == 0 {
        reveal(Seq::filter);
        assert(s.map_values(f) =~= Seq::<VersionView>::empty());
        assert(s.filter(p) =~= Seq::<VersionView>::empty());
        assert(s.filter(p).map_values(f) =~= Seq::<VersionView>::empty());
    } else {
        let rest = s.drop_last();
        let last = s.last();
        lemma_map_filter_commute(rest, f, p);
        assert(s =~= rest.push(last));
        assert(s.map_values(f) =~= rest.map_values(f).push(f(last)));
        rest.map_values(f).lemma_filter_push(f(last), p);
        rest.lemma_filter_push(last, p);
        if p(last) {
            assert(rest.filter(p).push(last).map_values(f) =~= rest.filter(p).map_values(f).push(
                f(last),
            ));
        }
    }
}

/// Two filters may change places.
proof fn lemma_filters_commute(
    s: Seq<VersionView>,
    p: spec_fn(VersionView) -> bool,
    q: spec_fn(VersionView) -> bool,
)
    ensures
        s.filter(p).filter(q) == s.filter(q).filter(p),
    decreases s.len(),
{
    if s.len() == 0 {
        reveal(Seq::filter);
        assert(s.filter(p) =~= s);
        assert(s.filter(q) =~= s);
    } else {
        let rest = s.drop_last();
        let last = s.last();
        lemma_filters_commute(rest, p, q);
        assert(s =~= rest.push(last));
        rest.lemma_filter_push(last, p);
        rest.lemma_filter_push(last, q);
        if p(last) {
            rest.filter(p).lemma_filter_push(last, q);
        }
        if q(last) {
            rest.filter(q).lemma_filter_push(last, p);
        }
    }
}

/// The readers at `horizon` are safe from the compaction: where a version
/// that they see is shielded, they see the shield too, and the filter keeps
/// what they see of the versions that it is shown.
pub open spec fn safe_horizon(
    vs: Seq<VersionView>,
    inputs: Seq<u64>,
    pins: Seq<u64>,
    choice: Map<Seq<u8>, DecisionView>,
    horizon: int,
) -> bool {
    &&& forall|x: int, y: int|
        0 <= x < vs.len() && 0 <= y < vs.len() && shields(
            inputs,
            pins,
            #[trigger] vs[x],
            #[trigger] vs[y],
        ) && vs[y].sequence <= horizon ==> vs[x].sequence <= horizon
    &&& forall|x: int|
        0 <= x < vs.len() && offered(vs, inputs, pins, #[trigger] vs[x]) && vs[x].sequence
            <= horizon ==> choice[vs[x].key] == DecisionView::Keep
}

/// The history of a key after a compaction is the history before it, without
/// the versions that the compaction drops, each as the compaction writes it.
proof fn lemma_history_after(
    vs: Seq<VersionView>,
    inputs: Seq<u64>,
    pins: Seq<u64>,
    out_run: u64,
    choice: Map<Seq<u8>, DecisionView>,
    key: Seq<u8>,
    horizon: int,
)
    ensures
        history(compacted(vs, inputs, pins, out_run, choice), key, horizon) == history(
            vs,
            key,
            horizon,
        ).filter(keeps(vs, inputs, pins)).map_values(rewrites(vs, inputs, pins, out_run, choice)),
{
    let k = keeps(vs, inputs, pins);
    let f = rewrites(vs, inputs, pins, out_run, choice);
    let p = |e: VersionView| visible(e, key, horizon);
    assert forall|e: VersionView| #[trigger] p(f(e)) == p(e) by {}
    lemma_map_filter_commute(vs.filter(k), f, p);
    lemma_filters_commute(vs, k, p);
}

/// The compaction keeps the operands on top of a safe reader's history and
/// the version below them, and writes each as it is, but for its run.
proof fn lemma_head_survives(
    vs: Seq<VersionView>,
    inputs: Seq<u64>,
    pins: Seq<u64>,
    out_run: u64,
    choice: Map<Seq<u8>, DecisionView>,
    key: Seq<u8>,
    horizon: int,
    t: int,
)
    requires
        sorted(vs),
        safe_horizon(vs, inputs, pins, choice, horizon),
        0 <= t < history(vs, key, horizon).len(),
        t <= pending_operands(history(vs, key, horizon)).len(),
    ensures
        ({
            let e = history(vs, key, horizon)[t];
            let w = rewritten(vs, inputs, pins, out_run, choice, e);
            &&& !shadowed(vs, inputs, pins, e)
            &&& w.kind == e.kind
            &&& w.value == e.value
            &&& w.sequence == e.sequence
        }),
{
    let h = history(vs, key, horizon);
    let p = |e: VersionView| visible(e, key, horizon);
    lemma_history_is_range(vs, key, horizon);
    let i = crate::version::rank(vs, key, horizon);
    lemma_chain_length(h);
    let e = h[t];
    assert(e == vs[i + t]);
    if shadowed(vs, inputs, pins, e) {
        let j = choose|j: int| 0 <= j < vs.len() && shields(inputs, pins, #[trigger] vs[j], e);
        assert(vs[j].sequence <= horizon);
        assert(p(vs[j]));
        vs.lemma_filter_contains(p, j);
        let u = choose|u: int| 0 <= u < h.len() && h[u] == vs[j];
        assert(h[u] == vs[i + u]);
        if u > t {
            assert(before(vs[i + t], vs[i + u]));
            lemma_key_lt_irreflexive(key);
        }
        assert(u < t);
        assert(h[u].kind == WriteKind::Merge);
    }
    if offered(vs, inputs, pins, e) {
        assert(choice[e.key] == DecisionView::Keep);
    }
}

/// Where a filter keeps the first `m` elements, they come first in what is
/// left, and what is left is no longer than the sequence.
proof fn lemma_kept_head(
    h: Seq<VersionView>,
    k: spec_fn(VersionView) -> bool,
    f: spec_fn(VersionView) -> VersionView,
    m: int,
)
    requires
        0 <= m <= h.len(),
        forall|t: int| 0 <= t < m ==> k(#[trigger] h[t]),
    ensures
        m <= h.filter(k).map_values(f).len() <= h.len(),
        forall|t: int| 0 <= t < m ==> (#[trigger] h.filter(k).map_values(f)[t]) == f(h[t]),
{
    let head = h.take(m);
    let tail = h.skip(m);
    assert(h =~= head + tail);
    assert forall|t: int| 0 <= t < head.len() implies k(#[trigger] head[t]) by {
        assert(head[t] == h[t]);
    }
    Seq::filter_distributes_over_add(head, tail, k);
    lemma_filter_keeps_all(head, k);
    tail.lemma_filter_len(k);
    let thin = h.filter(k);
    assert(thin == head + tail.filter(k));
    assert forall|t: int| 0 <= t < m implies (#[trigger] thin.map_values(f)[t]) == f(h[t]) by {
        assert(thin[t] == head[t]);
    }
}

/// A compaction does not change what a safe reader sees.
pub proof fn lemma_compaction_keeps_safe_reads(
    vs: Seq<VersionView>,
    inputs: Seq<u64>,
    pins: Seq<u64>,
    out_run: u64,
    choice: Map<Seq<u8>, DecisionView>,
    operator: Option<&dyn MergeOperator>,
    key: Seq<u8>,
    horizon: int,
)
    requires
        sorted(vs),
        safe_horizon(vs, inputs, pins, choice, horizon),
    ensures
        live_at(compacted(vs, inputs, pins, out_run, choice), operator, key, horizon) == live_at(
            vs,
            operator,
            key,
            horizon,
        ),
{
    let k = keeps(vs, inputs, pins);
    let f = rewrites(vs, inputs, pins, out_run, choice);
    let h = history(vs, key, horizon);
    let after = history(compacted(vs, inputs, pins, out_run, choice), key, horizon);
    lemma_history_after(vs, inputs, pins, out_run, choice, key, horizon);
    lemma_chain_length(h);
    let n = pending_operands(h).len() as int;
    // The operands on top and the version below them.
    let m = if n < h.len() {
        n + 1
    } else {
        n
    };
    assert forall|t: int| 0 <= t < m implies k(#[trigger] h[t]) by {
        lemma_head_survives(vs, inputs, pins, out_run, choice, key, horizon, t);
    }
    lemma_kept_head(h, k, f, m);
    assert forall|t: int| 0 <= t < m implies (#[trigger] after[t]).kind == h[t].kind && after[t].value
        == h[t].value && after[t].sequence == h[t].sequence by {
        lemma_head_survives(vs, inputs, pins, out_run, choice, key, horizon, t);
        assert(after[t] == f(h[t]));
    }
    if h.len() > 0 {
        lemma_same_head_same_value(h, after, n, operator, key);
    }
}

/// Two histories that begin with the same `n` merge operands and go on with
/// the same put or delete, or both end there, give the same value.
proof fn lemma_same_head_same_value(
    a: Seq<VersionView>,
    b: Seq<VersionView>,
    n: int,
    operator: Option<&dyn MergeOperator>,
    key: Seq<u8>,
)
    requires
        0 <= n <= a.len(),
        n <= b.len(),
        n == a.len() <==> n == b.len(),
        forall|t: int| 0 <= t < n ==> (#[trigger] a[t]).kind == WriteKind::Merge,
        n < a.len() ==> a[n].kind != WriteKind::Merge,
        forall|t: int|
            0 <= t < a.len() && t <= n ==> (#[trigger] b[t]).kind == a[t].kind && b[t].value
                == a[t].value,
    ensures
        resolved(operator, key, a) == resolved(operator, key, b),
{
    lemma_chain(a, n);
    lemma_chain(b, n);
    assert(pending_operands(a) =~= pending_operands(b));
}

/// A compaction does not change what a read through a pinned snapshot sees,
/// whatever the filter decides.
pub proof fn lemma_compaction_keeps_pinned_reads(
    vs: Seq<VersionView>,
    inputs: Seq<u64>,
    pins: Seq<u64>,
    out_run: u64,
    choice: Map<Seq<u8>, DecisionView>,
    operator: Option<&dyn MergeOperator>,
    key: Seq<u8>,
    snapshot: u64,
)
    requires
        sorted(vs),
        pins.contains(snapshot),
    ensures
        live_at(
            compacted(vs, inputs, pins, out_run, choice),
            operator,
            key,
            snapshot as int,
        ) == live_at(vs, operator, key, snapshot as int),
{
    let t = choose|t: int| 0 <= t < pins.len() && pins[t] == snapshot;
    assert forall|x: int, y: int|
        0 <= x < vs.len() && 0 <= y < vs.len() && shields(
            inputs,
            pins,
            #[trigger] vs[x],
            #[trigger] vs[y],
        ) && vs[y].sequence <= snapshot implies vs[x].sequence <= snapshot by {
        if vs[x].sequence > snapshot {
            assert(vs[y].sequence as int <= pins[t] < vs[x].sequence as int);
        }
    }
    assert forall|x: int|
        0 <= x < vs.len() && offered(vs, inputs, pins, #[trigger] vs[x]) && vs[x].sequence
            <= snapshot implies choice[vs[x].key] == DecisionView::Keep by {
        assert(vs[x].sequence as int <= pins[t]);
    }
    lemma_compaction_keeps_safe_reads(
        vs,
        inputs,
        pins,
        out_run,
        choice,
        operator,
        key,
        snapshot as int,
    );
}

/// A compaction whose filter keeps every entry that it is shown does not
/// change what a read of the latest state sees.
pub proof fn lemma_compaction_keeps_latest_reads(
    vs: Seq<VersionView>,
    inputs: Seq<u64>,
    pins: Seq<u64>,
    out_run: u64,
    choice: Map<Seq<u8>, DecisionView>,
    operator: Option<&dyn MergeOperator>,
    key: Seq<u8>,
    latest: u64,
)
    requires
        sorted(vs),
        bounded_by(vs, latest),
        forall|x: int|
            0 <= x < vs.len() && offered(vs, inputs, pins, #[trigger] vs[x]) ==> choice[vs[x].key]
                == DecisionView::Keep,
    ensures
        live_at(compacted(vs, inputs, pins, out_run, choice), operator, key, latest as int)
            == live_at(vs, operator, key, latest as int),
{
    lemma_compaction_keeps_safe_reads(
        vs,
        inputs,
        pins,
        out_run,
        choice,
        operator,
        key,
        latest as int,
    );
}

/// Where the report of a compaction tells of no decision but to keep, the
/// filter kept every entry that it was shown.
pub proof fn lemma_all_kept(
    vs: Seq<VersionView>,
    inputs: Seq<u64>,
    pins: Seq<u64>,
    decisions: Seq<DecisionView>,
    choice: Map<Seq<u8>, DecisionView>,
)
    requires
        told(offered_entries(vs, inputs, pins), decisions, choice),
        forall|x: int| 0 <= x < decisions.len() ==> (#[trigger] decisions[x]) == DecisionView::Keep,
    ensures
        forall|x: int|
            0 <= x < vs.len() && offered(vs, inputs, pins, #[trigger] vs[x]) ==> choice[vs[x].key]
                == DecisionView::Keep,
{
    let o = offers(vs, inputs, pins);
    let list = offered_entries(vs, inputs, pins);
    assert forall|x: int|
        0 <= x < vs.len() && offered(vs, inputs, pins, #[trigger] vs[x]) implies choice[vs[x].key]
        == DecisionView::Keep by {
        vs.lemma_filter_contains(o, x);
        let y = choose|y: int| 0 <= y < vs.filter(o).len() && vs.filter(o)[y] == vs[x];
        assert(list[y] == shown()(vs.filter(o)[y]));
        assert(list[y].key == vs[x].key);
        assert(decisions[y] == DecisionView::Keep);
    }
}

} // verus!
