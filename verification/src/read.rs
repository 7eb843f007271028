//! What a reader sees: version resolution at a horizon.
//!
//! A reader with horizon `h` sees, of every key, the versions whose sequence
//! number is at most `h`, the newest first. The newest decides: a put gives
//! its value, a delete hides the key, and a run of merge operands is folded
//! by the merge operator into the value below it.

use vstd::prelude::*;
use crate::bytes::{
    copy_bytes, key_equal, key_lt, lemma_key_lt_asymmetric, lemma_key_lt_irreflexive,
    lemma_key_lt_total, lemma_key_lt_transitive,
};
use crate::merge::{slice_option_view, MergeOperands, MergeOperator};
use crate::version::{
    before, before_slot, lemma_rank_boundary, lower_bound, rank, sorted, Version, VersionView,
    WriteKind,
};

verus! {

/// A key with the value that a reader sees, and the sequence number of the
/// version that gave it.
#[derive(Clone, Debug, PartialEq, Eq)]
pub struct KeyValue {
    pub key: Vec<u8>,
    pub value: Vec<u8>,
    pub sequence: u64,
}

/// The mathematical value of a [`KeyValue`].
pub struct KeyValueView {
    pub key: Seq<u8>,
    pub value: Seq<u8>,
    pub sequence: u64,
}

impl DeepView for KeyValue {
    type V = KeyValueView;

    open spec fn deep_view(&self) -> KeyValueView {
        KeyValueView { key: self.key@, value: self.value@, sequence: self.sequence }
    }
}

impl View for KeyValue {
    type V = KeyValueView;

    open spec fn view(&self) -> KeyValueView {
        self.deep_view()
    }
}

impl KeyValue {
    /// A copy of this pair.
    pub fn duplicate(&self) -> (r: KeyValue)
        ensures
            r@ == self@,
    {
        KeyValue {
            key: copy_bytes(self.key.as_slice()),
            value: copy_bytes(self.value.as_slice()),
            sequence: self.sequence,
        }
    }
}

/// A reader at `horizon` sees version `e` as a version of `key`.
pub open spec fn visible(e: VersionView, key: Seq<u8>, horizon: int) -> bool {
    e.key == key && e.sequence <= horizon
}

/// The versions of `key` that a reader at `horizon` sees, in table order:
/// in a sorted table, the newest first.
pub open spec fn history(vs: Seq<VersionView>, key: Seq<u8>, horizon: int) -> Seq<VersionView> {
    vs.filter(|e: VersionView| visible(e, key, horizon))
}

/// The merge operands on top of a history, the oldest first.
pub open spec fn pending_operands(hist: Seq<VersionView>) -> Seq<Seq<u8>>
    decreases hist.len(),
{
    if hist.len() > 0 && hist[0].kind == WriteKind::Merge {
        pending_operands(hist.drop_first()).push(hist[0].value)
    } else {
        Seq::empty()
    }
}

/// The value below the merge operands of a history, if there is one.
pub open spec fn base_value(hist: Seq<VersionView>) -> Option<Seq<u8>>
    decreases hist.len(),
{
    if hist.len() == 0 {
        None
    } else {
        match hist[0].kind {
            WriteKind::Merge => base_value(hist.drop_first()),
            WriteKind::Put => Some(hist[0].value),
            WriteKind::Delete => None,
        }
    }
}

/// The value that a history, newest version first, gives to its key. Without
/// an operator, operands change nothing.
pub open spec fn resolved(
    operator: Option<&dyn MergeOperator>,
    key: Seq<u8>,
    hist: Seq<VersionView>,
) -> Option<Seq<u8>> {
    let operands = pending_operands(hist);
    match operator {
        Some(m) if operands.len() > 0 => Some(m.merged(key, base_value(hist), operands)),
        _ => base_value(hist),
    }
}

/// What a reader at `horizon` sees of `key` in the table `vs`: nothing, or the
/// resolved value with the sequence number of the newest version seen.
pub open spec fn live_at(
    vs: Seq<VersionView>,
    operator: Option<&dyn MergeOperator>,
    key: Seq<u8>,
    horizon: int,
) -> Option<KeyValueView> {
    let hist = history(vs, key, horizon);
    match resolved(operator, key, hist) {
        Some(v) => Some(KeyValueView { key: key, value: v, sequence: hist[0].sequence }),
        None => None,
    }
}

/// The first index from `from` on at which the table holds another key than
/// `key`, or the table's length.
pub open spec fn group_end(vs: Seq<VersionView>, key: Seq<u8>, from: int) -> int
    decreases vs.len() - from,
{
    if 0 <= from < vs.len() && vs[from].key == key {
        group_end(vs, key, from + 1)
    } else {
        from
    }
}

pub proof fn lemma_group_end(vs: Seq<VersionView>, key: Seq<u8>, from: int)
    requires
        0 <= from <= vs.len(),
    ensures
        from <= group_end(vs, key, from) <= vs.len(),
        forall|x: int| from <= x < group_end(vs, key, from) ==> (#[trigger] vs[x]).key == key,
        group_end(vs, key, from) < vs.len() ==> vs[group_end(vs, key, from)].key != key,
    decreases vs.len() - from,
{
    if from < vs.len() && vs[from].key == key {
        lemma_group_end(vs, key, from + 1);
    }
}

pub proof fn lemma_filter_keeps_all(s: Seq<VersionView>, p: spec_fn(VersionView) -> bool)
    requires
        forall|x: int| 0 <= x < s.len() ==> p(#[trigger] s[x]),
    ensures
        s.filter(p) == s,
    decreases s.len(),
{
    reveal(Seq::filter);
    if s.len() > 0 {
        assert forall|x: int| 0 <= x < s.drop_last().len() implies p(
            #[trigger] s.drop_last()[x],
        ) by {
            assert(s.drop_last()[x] == s[x]);
        }
        lemma_filter_keeps_all(s.drop_last(), p);
        assert(s.drop_last().push(s.last()) =~= s);
    }
}

pub proof fn lemma_filter_keeps_none(s: Seq<VersionView>, p: spec_fn(VersionView) -> bool)
    requires
        forall|x: int| 0 <= x < s.len() ==> !p(#[trigger] s[x]),
    ensures
        s.filter(p) == Seq::<VersionView>::empty(),
    decreases s.len(),
{
    reveal(Seq::filter);
    if s.len() > 0 {
        assert forall|x: int| 0 <= x < s.drop_last().len() implies !p(
            #[trigger] s.drop_last()[x],
        ) by {
            assert(s.drop_last()[x] == s[x]);
        }
        lemma_filter_keeps_none(s.drop_last(), p);
    }
}

/// Filtering a sequence whose matching elements are those of one range gives
/// that range.
pub proof fn lemma_filter_is_range(
    s: Seq<VersionView>,
    p: spec_fn(VersionView) -> bool,
    i: int,
    j: int,
)
    requires
        0 <= i <= j <= s.len(),
        forall|x: int| 0 <= x < s.len() ==> (p(#[trigger] s[x]) <==> i <= x < j),
    ensures
        s.filter(p) == s.subrange(i, j),
{
    let a = s.subrange(0, i);
    let b = s.subrange(i, j);
    let c = s.subrange(j, s.len() as int);
    assert(s =~= a + b + c);
    Seq::filter_distributes_over_add(a + b, c, p);
    Seq::filter_distributes_over_add(a, b, p);
    assert forall|x: int| 0 <= x < a.len() implies !p(#[trigger] a[x]) by {
        assert(a[x] == s[x]);
    }
    assert forall|x: int| 0 <= x < b.len() implies p(#[trigger] b[x]) by {
        assert(b[x] == s[x + i]);
    }
    assert forall|x: int| 0 <= x < c.len() implies !p(#[trigger] c[x]) by {
        assert(c[x] == s[x + j]);
    }
    lemma_filter_keeps_none(a, p);
    lemma_filter_keeps_all(b, p);
    lemma_filter_keeps_none(c, p);
    assert(a.filter(p) + b.filter(p) + c.filter(p) =~= b);
}

/// In a sorted table the history of a key at a horizon is the range from the
/// slot's rank to the end of the key's versions.
pub proof fn lemma_history_is_range(vs: Seq<VersionView>, key: Seq<u8>, horizon: int)
    requires
        sorted(vs),
    ensures
        ({
            let i = rank(vs, key, horizon);
            let j = group_end(vs, key, i);
            0 <= i <= j <= vs.len() && history(vs, key, horizon) == vs.subrange(i, j)
        }),
{
    let i = rank(vs, key, horizon);
    lemma_rank_boundary(vs, key, horizon);
    lemma_group_end(vs, key, i);
    let j = group_end(vs, key, i);
    let p = |e: VersionView| visible(e, key, horizon);
    assert forall|x: int| 0 <= x < vs.len() implies (p(#[trigger] vs[x]) <==> i <= x < j) by {
        if x < i {
            assert(before_slot(vs[x], key, horizon));
            lemma_key_lt_irreflexive(key);
        } else if x < j {
            assert(!before_slot(vs[x], key, horizon));
        } else {
            assert(!before_slot(vs[j], key, horizon));
            lemma_key_lt_total(vs[j].key, key);
            assert(key_lt(key, vs[j].key));
            if j < x {
                assert(before(vs[j], vs[x]));
                if key_lt(vs[j].key, vs[x].key) {
                    lemma_key_lt_transitive(key, vs[j].key, vs[x].key);
                }
            }
            lemma_key_lt_asymmetric(key, vs[x].key);
            lemma_key_lt_irreflexive(key);
        }
    }
    lemma_filter_is_range(vs, p, i, j);
}

/// A history that begins with `n` merge operands and then holds another kind
/// of version, or ends: its operands and its base.
pub proof fn lemma_chain(hist: Seq<VersionView>, n: int)
    requires
        0 <= n <= hist.len(),
        forall|t: int| 0 <= t < n ==> (#[trigger] hist[t]).kind == WriteKind::Merge,
        n < hist.len() ==> hist[n].kind != WriteKind::Merge,
    ensures
        pending_operands(hist) == Seq::new(n as nat, |t: int| hist[n - 1 - t].value),
        base_value(hist) == (if n < hist.len() && hist[n].kind == WriteKind::Put {
            Some(hist[n].value)
        } else {
            None
        }),
    decreases n,
{
    if n > 0 {
        let rest = hist.drop_first();
        assert forall|t: int| 0 <= t < n - 1 implies (#[trigger] rest[t]).kind
            == WriteKind::Merge by {
            assert(rest[t] == hist[t + 1]);
        }
        lemma_chain(rest, n - 1);
        assert(pending_operands(hist) =~= Seq::new(n as nat, |t: int| hist[n - 1 - t].value));
    } else {
        assert(pending_operands(hist) =~= Seq::new(n as nat, |t: int| hist[n - 1 - t].value));
    }
}

/// The number of merge operands on top of a history: the versions before it
/// are merge operands, and the version at it, if there is one, is not.
pub proof fn lemma_chain_length(hist: Seq<VersionView>)
    ensures
        ({
            let n = pending_operands(hist).len() as int;
            &&& 0 <= n <= hist.len()
            &&& forall|t: int| 0 <= t < n ==> (#[trigger] hist[t]).kind == WriteKind::Merge
            &&& n < hist.len() ==> hist[n].kind != WriteKind::Merge
        }),
    decreases hist.len(),
{
    if hist.len() > 0 && hist[0].kind == WriteKind::Merge {
        let rest = hist.drop_first();
        lemma_chain_length(rest);
        let n = pending_operands(hist).len() as int;
        assert(n == pending_operands(rest).len() + 1);
        assert forall|t: int| 0 <= t < n implies (#[trigger] hist[t]).kind == WriteKind::Merge by {
            if t > 0 {
                assert(rest[t - 1] == hist[t]);
            }
        }
        if n < hist.len() {
            assert(rest[n - 1] == hist[n]);
        }
    }
}

/// Reads `key` at `horizon` from a sorted table.
pub fn read_at(
    table: &Vec<Version>,
    operator: Option<&dyn MergeOperator>,
    key: &[u8],
    horizon: u64,
) -> (r: Option<KeyValue>)
    requires
        sorted(table.deep_view()),
    ensures
        r.deep_view() == live_at(table.deep_view(), operator, key@, horizon as int),
{
    let ghost vs = table.deep_view();
    let i = lower_bound(table, key, horizon);
    proof {
        lemma_history_is_range(vs, key@, horizon as int);
        lemma_group_end(vs, key@, i as int);
    }
    let ghost j = group_end(vs, key@, i as int);
    let ghost hist = history(vs, key@, horizon as int);
    // The end of the merge operands on top of the history.
    let mut m: usize = i;
    while m < table.len() && key_equal(table[m].key.as_slice(), key) && table[m].kind
        == WriteKind::Merge
        invariant
            vs == table.deep_view(),
            i <= m <= j <= table.len(),
            j == group_end(vs, key@, i as int),
            forall|x: int| i <= x < j ==> (#[trigger] vs[x]).key == key@,
            j < vs.len() ==> vs[j].key != key@,
            forall|x: int| i <= x < m ==> (#[trigger] vs[x]).kind == WriteKind::Merge,
        decreases table.len() - m,
    {
        assert(vs[m as int] == table[m as int]@);
        m += 1;
    }
    let at_base = m < table.len() && key_equal(table[m].key.as_slice(), key);
    proof {
        if m < table.len() {
            assert(vs[m as int] == table[m as int]@);
        }
        assert(at_base <==> m < j);
        assert(hist.len() == j - i);
        assert forall|t: int| 0 <= t < m - i implies (#[trigger] hist[t]).kind
            == WriteKind::Merge by {
            assert(hist[t] == vs[i + t]);
        }
        if m < j {
            assert(hist[m - i] == vs[m as int]);
        }
        lemma_chain(hist, m - i);
    }
    let base: Option<&[u8]> = if at_base && table[m].kind == WriteKind::Put {
        Some(table[m].value.as_slice())
    } else {
        None
    };
    assert(slice_option_view(base) == base_value(hist));
    if m == i {
        // No operand: the newest version decides by itself.
        match base {
            Some(v) => Some(
                KeyValue { key: copy_bytes(key), value: copy_bytes(v), sequence: table[i].sequence },
            ),
            None => None,
        }
    } else {
        assert(hist[0] == vs[i as int]);
        assert(vs[i as int] == table[i as int]@);
        match operator {
            Some(op) => {
                // The operands, from the oldest (at m - 1) to the newest (at i).
                let mut operands: Vec<Vec<u8>> = Vec::new();
                let mut t: usize = m;
                while t > i
                    invariant
                        vs == table.deep_view(),
                        i <= t <= m <= table.len(),
                        operands.len() == m - t,
                        forall|x: int|
                            0 <= x < operands.len() ==> (#[trigger] operands[x])@ == vs[m - 1
                                - x].value,
                    decreases t,
                {
                    t -= 1;
                    assert(vs[t as int] == table[t as int]@);
                    operands.push(copy_bytes(table[t].value.as_slice()));
                }
                proof {
                    assert(operands.deep_view() =~= pending_operands(hist)) by {
                        assert forall|x: int| 0 <= x < m - i implies operands.deep_view()[x]
                            == pending_operands(hist)[x] by {
                            assert(hist[m - i - 1 - x] == vs[m - 1 - x]);
                            assert(operands.deep_view()[x] == operands[x]@);
                        }
                    }
                }
                let mut pending = MergeOperands::new(operands);
                let value = op.merge(key, base, &mut pending);
                Some(KeyValue { key: copy_bytes(key), value, sequence: table[i].sequence })
            },
            None => {
                match base {
                    Some(v) => Some(
                        KeyValue {
                            key: copy_bytes(key),
                            value: copy_bytes(v),
                            sequence: table[i].sequence,
                        },
                    ),
                    None => None,
                }
            },
        }
    }
}

} // verus!
