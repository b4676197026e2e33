//! The consumer-facing surface: a pull-based sequence of in-order values.

use crate::reorder::arrival_value;
use crate::reorder::is_arrival_permutation;
use crate::reorder::ProtocolViolation;
use crate::reorder::ReorderStage;
use vstd::prelude::*;

verus! {

/// Reorders a recorded arrival log and wraps the result as the pull-based
/// sequence the consumer drains.
///
/// Succeeds exactly when the log submits each index in `[0, n)` once; the
/// view then yields the submitted values in original index order, one per
/// pull, and end-of-sequence after the `n`-th pull.
pub fn into_seq_view<T>(n: usize, arrivals: Vec<(usize, T)>) -> (r: Result<
    SequentialView<T>,
    ProtocolViolation,
>)
    ensures
        r is Ok <==> is_arrival_permutation(arrivals@, n as int),
        r matches Ok(view) ==> ({
            &&& view.remaining_view().len() == n
            &&& forall|k: int|
                0 <= k < n ==> #[trigger] view.remaining_view()[k] == arrival_value(arrivals@, k)
        }),
{
    match ReorderStage::<T>::reorder_all(n, arrivals) {
        Ok(values) => Ok(SequentialView::new(values)),
        Err(e) => Err(e),
    }
}

/// What remains of `vals` after `p` pulls: each pull drops the front value
/// while one is left and changes nothing once none is. This is exactly the
/// step that [`SequentialView::next`] guarantees.
pub open spec fn after_pulls<T>(vals: Seq<T>, p: nat) -> Seq<T>
    decreases p,
{
    if p == 0 {
        vals
    } else if after_pulls(vals, (p - 1) as nat).len() > 0 {
        after_pulls(vals, (p - 1) as nat).drop_first()
    } else {
        after_pulls(vals, (p - 1) as nat)
    }
}

/// What pull number `p` (counting from zero) yields: the front of what
/// remains, or end-of-sequence.
pub open spec fn pull_yields<T>(vals: Seq<T>, p: nat) -> Option<T> {
    if after_pulls(vals, p).len() > 0 {
        Some(after_pulls(vals, p)[0])
    } else {
        None::<T>
    }
}

/// Exhaustion: over `n` values, each of the first `n` pulls yields the next
/// value in order, and every pull from the `n`-th on yields end-of-sequence
/// and leaves nothing behind — the terminal state is idempotent.
pub proof fn lemma_exhaustion<T>(vals: Seq<T>, p: nat)
    ensures
        p < vals.len() ==> after_pulls(vals, p) == vals.skip(p as int) && pull_yields(vals, p)
            == Some(vals[p as int]),
        p >= vals.len() ==> after_pulls(vals, p).len() == 0 && pull_yields(vals, p) is None,
    decreases p,
{
    if p > 0 {
        lemma_exhaustion(vals, (p - 1) as nat);
        if p - 1 < vals.len() {
            assert(vals.skip(p - 1).drop_first() =~= vals.skip(p as int));
        }
    } else {
        assert(vals.skip(0) =~= vals);
    }
}

/// A pull-based view of an already reordered sequence of values.
///
/// Each pull yields the next value in original index order; once every value
/// has been pulled, every further pull yields `None` (an idempotent terminal
/// state).
pub struct SequentialView<T> {
    remaining: Vec<T>,
}

impl<T> SequentialView<T> {
    /// The values not yet pulled, front first.
    pub closed spec fn remaining_view(&self) -> Seq<T> {
        self.remaining@
    }

    /// A view over `values`, none of them pulled yet.
    pub fn new(values: Vec<T>) -> (view: Self)
        ensures
            view.remaining_view() == values@,
    {
        SequentialView { remaining: values }
    }

    /// Pulls the next in-order value, or reports end-of-sequence.
    ///
    /// Yields `Some` of the front value while any value remains; after
    /// exhaustion it yields `None` and leaves the view unchanged, so repeated
    /// pulls at the end stay at `None`. This is one step of [`after_pulls`],
    /// so [`lemma_exhaustion`] describes any number of pulls in a row.
    pub fn next(&mut self) -> (r: Option<T>)
        ensures
            old(self).remaining_view().len() > 0 ==> {
                &&& r == Some(old(self).remaining_view()[0])
                &&& final(self).remaining_view() == old(self).remaining_view().drop_first()
            },
            old(self).remaining_view().len() == 0 ==> {
                &&& r is None
                &&& *final(self) == *old(self)
            },
    {
        if self.remaining.len() > 0 {
            let v = self.remaining.remove(0);
            proof {
                assert(old(self).remaining_view().remove(0) =~= old(
                    self,
                ).remaining_view().drop_first());
            }
            Some(v)
        } else {
            None
        }
    }

    /// How many values are still to be pulled.
    pub fn len(&self) -> (r: usize)
        ensures
            r == self.remaining_view().len(),
    {
        self.remaining.len()
    }
}

} // verus!
