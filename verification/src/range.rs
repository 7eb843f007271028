//! Compacting a key range of a column family.
//!
//! The compaction flushes the memtable, reads every flushed run that holds a
//! key of the range, and writes what is left of them to one new run.

use vstd::prelude::*;
use crate::bytes::{key_le, key_order, lemma_key_lt_asymmetric, KeyOrder};
use crate::compaction::{
    compact_table, compacted, is_input, keeps, offered_entries, rewritten, shadowed, tells,
    CompactionReport,
};
use crate::error::Error;
use crate::family::{ColumnFamily, DataView, RunInfo};
use crate::filter::DecisionView;
use crate::merge::slice_option_view;
use crate::options::{CompactOptions, DBBottommostLevelCompaction};
use crate::snapshot::SnapshotList;
use crate::version::{bounded_by, Version, VersionView};

verus! {

/// `key` lies in the range from `start` to `end`, both included; a bound
/// that is not given does not limit the range.
pub open spec fn in_range(key: Seq<u8>, start: Option<Seq<u8>>, end: Option<Seq<u8>>) -> bool {
    &&& start matches Some(s) ==> key_le(s, key)
    &&& end matches Some(e) ==> key_le(key, e)
}

/// Run `run` holds a version whose key lies in the range.
pub open spec fn run_overlaps(
    versions: Seq<VersionView>,
    run: u64,
    start: Option<Seq<u8>>,
    end: Option<Seq<u8>>,
) -> bool {
    exists|i: int|
        0 <= i < versions.len() && (#[trigger] versions[i]).run == run && in_range(
            versions[i].key,
            start,
            end,
        )
}

/// What a compaction of a range is asked to do.
pub struct RangeTask {
    pub start: Option<Seq<u8>>,
    pub end: Option<Seq<u8>>,
    /// The runs at the deepest level are left alone.
    pub skip_bottommost: bool,
    /// The level of the run to write, if it is not negative.
    pub target_level: i32,
}

/// The task that the options give for a column family.
pub open spec fn task_of(
    options: CompactOptions,
    has_filter: bool,
    start: Option<Seq<u8>>,
    end: Option<Seq<u8>>,
) -> RangeTask {
    RangeTask {
        start,
        end,
        skip_bottommost: options.bottommost_level_compaction == DBBottommostLevelCompaction::Skip
            || (options.bottommost_level_compaction
            == DBBottommostLevelCompaction::IfHaveCompactionFilter && !has_filter),
        target_level: options.target_level,
    }
}

/// The compaction reads run `r`: the run holds a key of the range, and it
/// does not lie at the deepest level where that level is left alone.
pub open spec fn run_chosen(data: DataView, task: RangeTask, r: RunInfo) -> bool {
    run_overlaps(data.versions, r.id, task.start, task.end) && !(task.skip_bottommost && r.level
        + 1 == data.identity.num_levels)
}

/// The runs that the compaction reads, as a predicate.
pub open spec fn chooses(data: DataView, task: RangeTask) -> spec_fn(RunInfo) -> bool {
    |r: RunInfo| run_chosen(data, task, r)
}

/// The runs that the compaction leaves alone, as a predicate.
pub open spec fn spares(data: DataView, task: RangeTask) -> spec_fn(RunInfo) -> bool {
    |r: RunInfo| !run_chosen(data, task, r)
}

/// The numbers of the runs that the compaction reads.
pub open spec fn input_runs(data: DataView, task: RangeTask) -> Seq<u64> {
    data.runs.filter(chooses(data, task)).map_values(|r: RunInfo| r.id)
}

/// The deepest level of a list of runs; 0 for no run.
pub open spec fn deepest(runs: Seq<RunInfo>) -> usize
    decreases runs.len(),
{
    if runs.len() == 0 {
        0
    } else if runs.last().level > deepest(runs.drop_last()) {
        runs.last().level
    } else {
        deepest(runs.drop_last())
    }
}

/// The level of the run that the compaction writes.
pub open spec fn output_level(data: DataView, task: RangeTask) -> usize {
    if task.target_level >= 0 {
        task.target_level as usize
    } else {
        deepest(data.runs.filter(chooses(data, task)))
    }
}

/// Why a column family cannot be compacted, if it cannot: the level asked
/// for does not exist, or the run numbers are nearly used up.
pub open spec fn range_refusal(data: DataView, task: RangeTask) -> Option<Error> {
    if task.target_level >= 0 && task.target_level as int >= data.identity.num_levels as int {
        Some(Error::InvalidArgument)
    } else if data.next_run >= u64::MAX - 1 {
        Some(Error::IOError)
    } else {
        None
    }
}

/// The column family after the compaction of a range, where the filter
/// decides `choice[k]` about the version of key `k` that it is shown: the
/// memtable is flushed; if some run holds a key of the range, the runs that
/// do are replaced by one new run.
pub open spec fn range_compacted(
    data: DataView,
    task: RangeTask,
    pins: Seq<u64>,
    choice: Map<Seq<u8>, DecisionView>,
) -> DataView {
    let flushed = data.flushed();
    let inputs = input_runs(flushed, task);
    if inputs.len() == 0 {
        flushed
    } else {
        DataView {
            versions: compacted(flushed.versions, inputs, pins, flushed.next_run, choice),
            runs: flushed.runs.filter(spares(flushed, task)).push(
                RunInfo { id: flushed.next_run, level: output_level(flushed, task) },
            ),
            next_run: (flushed.next_run + 1) as u64,
            ..flushed
        }
    }
}

/// What the compaction of a range shows to the filter.
pub open spec fn range_offered(data: DataView, task: RangeTask, pins: Seq<u64>) -> Seq<
    crate::read::KeyValueView,
> {
    let flushed = data.flushed();
    offered_entries(flushed.versions, input_runs(flushed, task), pins)
}

/// Each version that a compaction writes is what it writes for a version
/// that it keeps.
pub proof fn lemma_compacted_element(
    vs: Seq<VersionView>,
    inputs: Seq<u64>,
    pins: Seq<u64>,
    out_run: u64,
    choice: Map<Seq<u8>, DecisionView>,
    y: int,
) -> (x: int)
    requires
        0 <= y < compacted(vs, inputs, pins, out_run, choice).len(),
    ensures
        0 <= x < vs.len(),
        !shadowed(vs, inputs, pins, vs[x]),
        compacted(vs, inputs, pins, out_run, choice)[y] == rewritten(
            vs,
            inputs,
            pins,
            out_run,
            choice,
            vs[x],
        ),
{
    let k = keeps(vs, inputs, pins);
    let kept = vs.filter(k);
    let e = kept[y];
    assert(kept.contains(e));
    vs.lemma_filter_contains_rev(k, e);
    vs.lemma_filter_pred(k, y);
    choose|x: int| 0 <= x < vs.len() && vs[x] == e
}

/// Whether `key` lies in the range.
fn key_in_range(key: &[u8], start: Option<&[u8]>, end: Option<&[u8]>) -> (b: bool)
    ensures
        b == in_range(key@, slice_option_view(start), slice_option_view(end)),
{
    let after_start = match start {
        Some(s) => {
            proof {
                lemma_key_lt_asymmetric(s@, key@);
                crate::bytes::lemma_key_lt_irreflexive(key@);
            }
            match key_order(s, key) {
                KeyOrder::Greater => false,
                _ => true,
            }
        },
        None => true,
    };
    let before_end = match end {
        Some(e) => {
            proof {
                lemma_key_lt_asymmetric(key@, e@);
                crate::bytes::lemma_key_lt_irreflexive(key@);
            }
            match key_order(key, e) {
                KeyOrder::Greater => false,
                _ => true,
            }
        },
        None => true,
    };
    after_start && before_end
}

/// Whether run `run` holds a version whose key lies in the range.
fn overlaps(table: &Vec<Version>, run: u64, start: Option<&[u8]>, end: Option<&[u8]>) -> (b: bool)
    ensures
        b == run_overlaps(
            table.deep_view(),
            run,
            slice_option_view(start),
            slice_option_view(end),
        ),
{
    let ghost vs = table.deep_view();
    let mut i: usize = 0;
    while i < table.len()
        invariant
            vs == table.deep_view(),
            i <= table.len(),
            forall|x: int|
                0 <= x < i ==> !((#[trigger] vs[x]).run == run && in_range(
                    vs[x].key,
                    slice_option_view(start),
                    slice_option_view(end),
                )),
        decreases table.len() - i,
    {
        assert(vs[i as int] == table[i as int]@);
        if table[i].run == run && key_in_range(table[i].key.as_slice(), start, end) {
            return true;
        }
        i += 1;
    }
    false
}

impl<'a> ColumnFamily<'a> {
    /// Compacts the range from `start` to `end`, with the pinned horizons
    /// `pins`. Whatever the filter decides, a read through a pinned snapshot
    /// sees after the compaction what it saw before.
    pub fn compact_range(
        &mut self,
        pins: &SnapshotList,
        options: &CompactOptions,
        start: Option<&[u8]>,
        end: Option<&[u8]>,
    ) -> (r: Result<CompactionReport, Error>)
        requires
            old(self)@.data.wf(),
        ensures
            final(self)@.data.wf(),
            final(self)@.operator == old(self)@.operator,
            final(self)@.transform == old(self)@.transform,
            final(self)@.has_filter == old(self)@.has_filter,
            forall|bound: u64|
                bounded_by(old(self)@.data.versions, bound) ==> bounded_by(
                    final(self)@.data.versions,
                    bound,
                ),
            ({
                let task = task_of(
                    *options,
                    old(self)@.has_filter,
                    slice_option_view(start),
                    slice_option_view(end),
                );
                match r {
                    Ok(report) => {
                        &&& range_refusal(old(self)@.data, task) is None
                        &&& report.offered.deep_view() == range_offered(
                            old(self)@.data,
                            task,
                            pins@,
                        )
                        &&& exists|choice: Map<Seq<u8>, DecisionView>|
                            tells(report, choice) && final(self)@.data == #[trigger] range_compacted(
                                old(self)@.data,
                                task,
                                pins@,
                                choice,
                            )
                        &&& !old(self)@.has_filter ==> forall|x: int|
                            0 <= x < report.decisions.len() ==> (
                            #[trigger] report.decisions.deep_view()[x]) == DecisionView::Keep
                    },
                    Err(e) => range_refusal(old(self)@.data, task) == Some(e) && final(self)@
                        == old(self)@,
                }
            }),
    {
        let ghost task = task_of(
            *options,
            self@.has_filter,
            slice_option_view(start),
            slice_option_view(end),
        );
        let num_levels = self.data.identity.num_levels;
        if options.target_level >= 0 && options.target_level as usize >= num_levels {
            return Err(Error::InvalidArgument);
        }
        if self.data.next_run >= u64::MAX - 1 {
            return Err(Error::IOError);
        }
        let flushed_ok = self.data.flush();
        let ghost flushed = self@.data;
        assert(flushed == old(self)@.data.flushed());
        let skip_bottommost = match options.bottommost_level_compaction {
            DBBottommostLevelCompaction::Skip => true,
            DBBottommostLevelCompaction::IfHaveCompactionFilter => self.compaction_filter.is_none(),
            DBBottommostLevelCompaction::Force => false,
        };
        // The runs to read, the runs to leave alone, the deepest level read.
        let mut inputs: Vec<u64> = Vec::new();
        let mut spared: Vec<RunInfo> = Vec::new();
        let mut deepest_read: usize = 0;
        let ghost c = chooses(flushed, task);
        let ghost sp = spares(flushed, task);
        let ghost ident = |r: RunInfo| r.id;
        let mut j: usize = 0;
        proof {
            reveal(Seq::filter);
            assert(flushed.runs.take(0) =~= Seq::<RunInfo>::empty());
            assert(inputs@ =~= flushed.runs.take(0).filter(c).map_values(ident));
            assert(spared@ =~= flushed.runs.take(0).filter(sp));
        }
        while j < self.data.runs.len()
            invariant
                self@.data == flushed,
                flushed.wf(),
                j <= self.data.runs.len(),
                c == chooses(flushed, task),
                sp == spares(flushed, task),
                ident == |r: RunInfo| r.id,
                task.start == slice_option_view(start),
                task.end == slice_option_view(end),
                task.skip_bottommost == skip_bottommost,
                num_levels == flushed.identity.num_levels,
                inputs@ == flushed.runs.take(j as int).filter(c).map_values(ident),
                spared@ == flushed.runs.take(j as int).filter(sp),
                deepest_read == deepest(flushed.runs.take(j as int).filter(c)),
                deepest_read < num_levels,
                forall|x: int| 0 <= x < spared.len() ==> (#[trigger] spared[x]).id < flushed.next_run
                    && spared[x].level < num_levels,
            decreases self.data.runs.len() - j,
        {
            let r = self.data.runs[j];
            let read = overlaps(&self.data.table, r.id, start, end) && !(skip_bottommost && r.level
                + 1 == num_levels);
            proof {
                assert(read == run_chosen(flushed, task, r));
                assert(flushed.runs.take(j + 1) =~= flushed.runs.take(j as int).push(r));
                flushed.runs.take(j as int).lemma_filter_push(r, c);
                flushed.runs.take(j as int).lemma_filter_push(r, sp);
                assert(flushed.runs[j as int] == r);
            }
            if read {
                proof {
                    let so_far = flushed.runs.take(j as int).filter(c);
                    assert(so_far.push(r).map_values(ident) =~= so_far.map_values(ident).push(r.id));
                    assert(so_far.push(r).drop_last() =~= so_far);
                }
                inputs.push(r.id);
                if r.level > deepest_read {
                    deepest_read = r.level;
                }
            } else {
                spared.push(r);
            }
            j += 1;
        }
        proof {
            assert(flushed.runs.take(flushed.runs.len() as int) =~= flushed.runs);
        }
        if inputs.len() == 0 {
            let report = CompactionReport { offered: Vec::new(), decisions: Vec::new() };
            proof {
                let none: Map<Seq<u8>, DecisionView> = Map::empty();
                assert(inputs@ == input_runs(flushed, task));
                assert(inputs@ =~= Seq::<u64>::empty());
                lemma_nothing_offered(flushed.versions, pins@);
                assert(report.offered.deep_view() =~= Seq::<crate::read::KeyValueView>::empty());
                assert(report.offered.deep_view() =~= range_offered(old(self)@.data, task, pins@));
                assert(report.decisions.deep_view() =~= Seq::<DecisionView>::empty());
                assert(tells(report, none));
                assert(self@.data == range_compacted(old(self)@.data, task, pins@, none));
            }
            return Ok(report);
        }
        let out_run = self.data.next_run;
        let level = if options.target_level >= 0 {
            options.target_level as usize
        } else {
            deepest_read
        };
        let (table, report) = compact_table(
            &self.data.table,
            &inputs,
            pins,
            out_run,
            level,
            &mut self.compaction_filter,
        );
        spared.push(RunInfo { id: out_run, level });
        self.data.table = table;
        self.data.runs = spared;
        self.data.next_run = out_run + 1;
        proof {
            let choice = choose|choice: Map<Seq<u8>, DecisionView>|
                tells(report, choice) && self.data.table.deep_view() == #[trigger] compacted(
                    flushed.versions,
                    inputs@,
                    pins@,
                    out_run,
                    choice,
                );
            let after = range_compacted(old(self)@.data, task, pins@, choice);
            assert(self@.data.runs =~= after.runs);
            assert(self@.data == after);
            let out = self@.data.versions;
            assert forall|y: int| 0 <= y < out.len() implies (#[trigger] out[y]).run < out_run
                + 1 by {
                let x = lemma_compacted_element(flushed.versions, inputs@, pins@, out_run, choice, y);
            }
            assert forall|bound: u64| bounded_by(old(self)@.data.versions, bound) implies bounded_by(
                self@.data.versions,
                bound,
            ) by {
                assert forall|y: int| 0 <= y < out.len() implies (#[trigger] out[y]).sequence
                    <= bound by {
                    let x = lemma_compacted_element(
                        flushed.versions,
                        inputs@,
                        pins@,
                        out_run,
                        choice,
                        y,
                    );
                }
            }
        }
        Ok(report)
    }
}

/// A compaction that reads no run shows nothing to the filter.
proof fn lemma_nothing_offered(vs: Seq<VersionView>, pins: Seq<u64>)
    ensures
        offered_entries(vs, Seq::<u64>::empty(), pins) == Seq::<crate::read::KeyValueView>::empty(),
{
    let none = Seq::<u64>::empty();
    let o = crate::compaction::offers(vs, none, pins);
    assert forall|x: int| 0 <= x < vs.len() implies !o(#[trigger] vs[x]) by {
        assert(!is_input(none, vs[x]));
    }
    crate::read::lemma_filter_keeps_none(vs, o);
    assert(offered_entries(vs, none, pins) =~= Seq::<crate::read::KeyValueView>::empty());
}

} // verus!
