//! Snapshots: pinned read horizons.
//!
//! A snapshot holds a sequence number. A read through it sees the writes up
//! to that number and none after it. While a snapshot is pinned, compaction
//! keeps every version that a read through it resolves to.

use vstd::prelude::*;

verus! {

/// A pinned read horizon.
#[derive(Clone, Copy, Debug, PartialEq, Eq, Structural)]
pub struct Snapshot {
    sequence: u64,
}

impl Snapshot {
    /// The sequence number that the snapshot holds.
    pub closed spec fn horizon(&self) -> u64 {
        self.sequence
    }

    /// The sequence number that the snapshot holds.
    pub fn sequence(&self) -> (s: u64)
        ensures
            s == self.horizon(),
    {
        self.sequence
    }
}

/// The horizons that are pinned, one entry for each snapshot that was taken
/// and not released yet.
pub struct SnapshotList {
    pins: Vec<u64>,
}

/// Some horizon of `pins` lies in `[low, high)`.
pub open spec fn pinned_between(pins: Seq<u64>, low: int, high: int) -> bool {
    exists|i: int| 0 <= i < pins.len() && low <= #[trigger] pins[i] < high
}

/// Some horizon of `pins` is `low` or greater.
pub open spec fn pinned_from(pins: Seq<u64>, low: int) -> bool {
    exists|i: int| 0 <= i < pins.len() && low <= #[trigger] pins[i]
}

/// The index of the first pin of `horizon`.
pub open spec fn first_pin(pins: Seq<u64>, horizon: u64) -> int {
    choose|i: int|
        0 <= i < pins.len() && pins[i] == horizon && forall|x: int|
            0 <= x < i ==> pins[x] != horizon
}

proof fn lemma_first_pin(pins: Seq<u64>, horizon: u64, i: int)
    requires
        0 <= i < pins.len(),
        pins[i] == horizon,
        forall|x: int| 0 <= x < i ==> pins[x] != horizon,
    ensures
        first_pin(pins, horizon) == i,
{
    let j = first_pin(pins, horizon);
    assert(0 <= j < pins.len() && pins[j] == horizon && forall|x: int|
        0 <= x < j ==> pins[x] != horizon);
}

impl View for SnapshotList {
    type V = Seq<u64>;

    closed spec fn view(&self) -> Seq<u64> {
        self.pins@
    }
}

impl SnapshotList {
    /// No snapshot.
    pub fn new() -> (r: SnapshotList)
        ensures
            r@ == Seq::<u64>::empty(),
    {
        SnapshotList { pins: Vec::new() }
    }

    /// How many snapshots are pinned.
    pub fn len(&self) -> (n: usize)
        ensures
            n == self@.len(),
    {
        self.pins.len()
    }

    /// Pins `sequence` and returns the snapshot that holds it.
    pub fn pin(&mut self, sequence: u64) -> (s: Snapshot)
        ensures
            final(self)@ == old(self)@.push(sequence),
            s.horizon() == sequence,
    {
        self.pins.push(sequence);
        Snapshot { sequence }
    }

    /// Releases the oldest pin of the snapshot's horizon. Returns whether
    /// there was one.
    pub fn release(&mut self, snapshot: &Snapshot) -> (released: bool)
        ensures
            released == old(self)@.contains(snapshot.horizon()),
            released ==> final(self)@ == old(self)@.remove(
                first_pin(old(self)@, snapshot.horizon()),
            ),
            !released ==> final(self)@ == old(self)@,
    {
        let mut i: usize = 0;
        while i < self.pins.len()
            invariant
                *self == *old(self),
                i <= self.pins.len(),
                forall|x: int| 0 <= x < i ==> self.pins@[x] != snapshot.sequence,
            decreases self.pins.len() - i,
        {
            if self.pins[i] == snapshot.sequence {
                proof {
                    lemma_first_pin(self.pins@, snapshot.sequence, i as int);
                }
                self.pins.remove(i);
                return true;
            }
            i += 1;
        }
        false
    }

    /// Whether a pinned horizon lies in `[low, high)`.
    pub fn pins_between(&self, low: u64, high: u64) -> (b: bool)
        ensures
            b == pinned_between(self@, low as int, high as int),
    {
        let mut i: usize = 0;
        while i < self.pins.len()
            invariant
                i <= self.pins.len(),
                forall|x: int| 0 <= x < i ==> !(low <= #[trigger] self.pins@[x] < high),
            decreases self.pins.len() - i,
        {
            if low <= self.pins[i] && self.pins[i] < high {
                return true;
            }
            i += 1;
        }
        false
    }

    /// Whether a pinned horizon is `low` or greater.
    pub fn pins_from(&self, low: u64) -> (b: bool)
        ensures
            b == pinned_from(self@, low as int),
    {
        let mut i: usize = 0;
        while i < self.pins.len()
            invariant
                i <= self.pins.len(),
                forall|x: int| 0 <= x < i ==> !(low <= #[trigger] self.pins@[x]),
            decreases self.pins.len() - i,
        {
            if low <= self.pins[i] {
                return true;
            }
            i += 1;
        }
        false
    }
}

} // verus!
