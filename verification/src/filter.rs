//! Compaction filters: what a column family's owner may say about an entry
//! when a compaction rewrites it.

use vstd::prelude::*;

verus! {

/// The kind of entry that a compaction filter is shown.
#[derive(Clone, Copy, Debug, PartialEq, Eq, Structural)]
pub enum CompactionFilterValueType {
    /// A value that was put.
    Value,
    /// A merge operand.
    MergeOperand,
}

/// What a compaction filter decides about an entry.
#[derive(Clone, Debug, PartialEq, Eq)]
pub enum CompactionFilterDecision {
    /// The entry stays as it is.
    Keep,
    /// The entry goes: the key is deleted as of the entry's sequence number.
    Remove,
    /// The entry stays, with this value.
    ChangeValue(Vec<u8>),
}

/// The mathematical value of a [`CompactionFilterDecision`].
pub enum DecisionView {
    Keep,
    Remove,
    ChangeValue(Seq<u8>),
}

impl DeepView for CompactionFilterDecision {
    type V = DecisionView;

    open spec fn deep_view(&self) -> DecisionView {
        match self {
            CompactionFilterDecision::Keep => DecisionView::Keep,
            CompactionFilterDecision::Remove => DecisionView::Remove,
            CompactionFilterDecision::ChangeValue(v) => DecisionView::ChangeValue(v@),
        }
    }
}

impl View for CompactionFilterDecision {
    type V = DecisionView;

    open spec fn view(&self) -> DecisionView {
        self.deep_view()
    }
}

/// A compaction filter. A compaction shows it the newest version of a key,
/// once, where no snapshot can see that version, and does what the filter
/// decides. The filter may keep a record of what it was shown.
pub trait CompactionFilter {
    /// Decides about the entry of `key` with the given sequence number and
    /// value, which is being written to `level`.
    fn featured_filter(
        &mut self,
        level: usize,
        key: &[u8],
        sequence: u64,
        value: &[u8],
        value_type: CompactionFilterValueType,
    ) -> CompactionFilterDecision;
}

} // verus!
