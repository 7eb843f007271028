//! Merge operators: how pending updates of a key are folded into its value.
//!
//! A merge write does not set a value; it leaves an operand. When the key is
//! read, the operands that were written after the key's last value are handed
//! to the column family's merge operator, from the oldest to the newest,
//! together with that value.

use vstd::prelude::*;
use crate::bytes::copy_bytes;

verus! {

/// The operands of one merge, from the oldest to the newest. They are read
/// once, front to back: what was taken does not come again.
pub struct MergeOperands {
    operands: Vec<Vec<u8>>,
    cursor: usize,
}

/// The bytes behind an optional slice.
pub open spec fn slice_option_view(o: Option<&[u8]>) -> Option<Seq<u8>> {
    match o {
        Some(s) => Some(s@),
        None => None,
    }
}

/// All the operands in a row, the oldest first.
pub open spec fn concat_all(operands: Seq<Seq<u8>>) -> Seq<u8>
    decreases operands.len(),
{
    if operands.len() == 0 {
        Seq::empty()
    } else {
        concat_all(operands.drop_last()) + operands.last()
    }
}

impl MergeOperands {
    /// The cursor is inside the list.
    pub closed spec fn wf(&self) -> bool {
        self.cursor <= self.operands.len()
    }

    /// What has not been taken yet, the oldest first.
    pub closed spec fn remaining(&self) -> Seq<Seq<u8>> {
        self.operands.deep_view().subrange(self.cursor as int, self.operands.len() as int)
    }

    /// The operands of one merge, given from the oldest to the newest.
    pub fn new(operands: Vec<Vec<u8>>) -> (r: MergeOperands)
        ensures
            r.wf(),
            r.remaining() == operands.deep_view(),
    {
        let r = MergeOperands { operands, cursor: 0 };
        assert(r.remaining() =~= operands.deep_view());
        r
    }

    /// How many operands are left.
    pub fn size_hint(&self) -> (n: usize)
        requires
            self.wf(),
        ensures
            n == self.remaining().len(),
    {
        self.operands.len() - self.cursor
    }

    /// Takes the oldest operand that is left.
    pub fn next(&mut self) -> (r: Option<&[u8]>)
        requires
            old(self).wf(),
        ensures
            final(self).wf(),
            match r {
                Some(operand) => {
                    &&& old(self).remaining().len() > 0
                    &&& operand@ == old(self).remaining()[0]
                    &&& final(self).remaining() == old(self).remaining().drop_first()
                },
                None => {
                    &&& old(self).remaining().len() == 0
                    &&& final(self).remaining() == old(self).remaining()
                },
            },
    {
        if self.cursor < self.operands.len() {
            let i = self.cursor;
            self.cursor = i + 1;
            assert(self.remaining() =~= old(self).remaining().drop_first());
            Some(self.operands[i].as_slice())
        } else {
            None
        }
    }
}

/// A merge operator: a deterministic function from a key, its value so far
/// and the pending operands to the merged value.
pub trait MergeOperator {
    /// The merged value. `operands` holds the oldest operand first.
    spec fn merged(&self, key: Seq<u8>, existing: Option<Seq<u8>>, operands: Seq<Seq<u8>>) -> Seq<
        u8,
    >;

    /// Computes the merged value from the operands that are left in
    /// `operands`.
    fn merge(&self, key: &[u8], existing: Option<&[u8]>, operands: &mut MergeOperands) -> (r: Vec<
        u8,
    >)
        requires
            old(operands).wf(),
        ensures
            final(operands).wf(),
            r@ == self.merged(key@, slice_option_view(existing), old(operands).remaining()),
    ;
}

/// The operator that appends every operand to the value so far.
#[derive(Clone, Copy, Debug)]
pub struct AppendOperator;

pub proof fn lemma_concat_all_add(a: Seq<Seq<u8>>, b: Seq<Seq<u8>>)
    ensures
        concat_all(a + b) == concat_all(a) + concat_all(b),
    decreases b.len(),
{
    if b.len() == 0 {
        assert(a + b =~= a);
        assert(concat_all(a) + concat_all(b) =~= concat_all(a));
    } else {
        assert((a + b).drop_last() =~= a + b.drop_last());
        assert((a + b).last() == b.last());
        lemma_concat_all_add(a, b.drop_last());
        assert(concat_all(a + b) =~= concat_all(a) + concat_all(b));
    }
}

impl MergeOperator for AppendOperator {
    open spec fn merged(
        &self,
        key: Seq<u8>,
        existing: Option<Seq<u8>>,
        operands: Seq<Seq<u8>>,
    ) -> Seq<u8> {
        match existing {
            Some(v) => v + concat_all(operands),
            None => concat_all(operands),
        }
    }

    fn merge(&self, key: &[u8], existing: Option<&[u8]>, operands: &mut MergeOperands) -> (r: Vec<
        u8,
    >) {
        let ghost all = operands.remaining();
        let ghost start: Seq<u8> = match existing {
            Some(v) => v@,
            None => Seq::empty(),
        };
        let mut result: Vec<u8> = match existing {
            Some(v) => copy_bytes(v),
            None => Vec::new(),
        };
        let ghost mut taken: Seq<Seq<u8>> = Seq::empty();
        assert(result@ =~= start + concat_all(taken));
        loop
            invariant
                operands.wf(),
                all == taken + operands.remaining(),
                result@ == start + concat_all(taken),
            ensures
                operands.wf(),
                result@ == start + concat_all(all),
            decreases operands.remaining().len(),
        {
            let ghost left = operands.remaining();
            match operands.next() {
                Some(op) => {
                    let mut i: usize = 0;
                    let ghost sofar = result@;
                    while i < op.len()
                        invariant
                            i <= op.len(),
                            result@ == sofar + op@.subrange(0, i as int),
                        decreases op.len() - i,
                    {
                        result.push(op[i]);
                        assert(result@ =~= sofar + op@.subrange(0, i + 1));
                        i += 1;
                    }
                    proof {
                        assert(op@.subrange(0, op.len() as int) =~= op@);
                        let more = taken.push(op@);
                        assert(more.drop_last() =~= taken);
                        assert(result@ =~= start + concat_all(more));
                        assert(all =~= more + operands.remaining());
                        taken = more;
                    }
                },
                None => {
                    proof {
                        assert(all =~= taken);
                    }
                    break ;
                },
            }
        }
        proof {
            match existing {
                Some(v) => {},
                None => {
                    assert(start + concat_all(all) =~= concat_all(all));
                },
            }
        }
        result
    }
}

/// Merging in two steps gives what merging at once gives: the operator may
/// be applied to a part of the operands early and to the rest later, with the
/// first result as the value so far.
pub open spec fn merges_in_parts<M: MergeOperator + ?Sized>(operator: &M) -> bool {
    forall|key: Seq<u8>, existing: Option<Seq<u8>>, older: Seq<Seq<u8>>, newer: Seq<Seq<u8>>|
        older.len() > 0 ==> #[trigger] operator.merged(
            key,
            Some(operator.merged(key, existing, older)),
            newer,
        ) == operator.merged(key, existing, older + newer)
}

/// Appending merges in parts: early and late resolution give the same value.
pub proof fn lemma_append_merges_in_parts()
    ensures
        merges_in_parts(&AppendOperator),
{
    assert forall|key: Seq<u8>, existing: Option<Seq<u8>>, older: Seq<Seq<u8>>, newer: Seq<Seq<u8>>|
        older.len() > 0 implies #[trigger] AppendOperator.merged(
        key,
        Some(AppendOperator.merged(key, existing, older)),
        newer,
    ) == AppendOperator.merged(key, existing, older + newer) by {
        lemma_concat_all_add(older, newer);
        match existing {
            Some(v) => {
                assert((v + concat_all(older)) + concat_all(newer) =~= v + (concat_all(older)
                    + concat_all(newer)));
            },
            None => {},
        }
    }
}

} // verus!
