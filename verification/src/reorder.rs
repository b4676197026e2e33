//! The reordering stage: an index-sorted holding buffer plus a cursor.
//!
//! Workers complete elements of an indexed sequence in arbitrary order and
//! submit `(index, value)` pairs. The stage buffers pairs whose index is
//! still ahead of the cursor and releases values strictly in ascending index
//! order: a submission releases the maximal run of consecutive indices,
//! starting at the cursor, that are now present.

use vstd::prelude::*;

verus! {

/// A producer broke the submission protocol, or the stage was finalized
/// before every index was submitted.
#[derive(Clone, Copy, Debug, PartialEq, Eq, Structural)]
pub enum ProtocolViolation {
    /// An index was submitted twice: it was already delivered or is buffered.
    DuplicateIndex,
    /// A submitted index lies outside the expected range.
    IndexOutOfRange,
    /// Finalization was requested before all indices were delivered.
    Incomplete,
}

/// The pairs of `s` are strictly sorted by ascending index.
pub open spec fn idx_sorted<T>(s: Seq<(usize, T)>) -> bool {
    forall|i: int, j: int| 0 <= i < j < s.len() ==> s[i].0 < s[j].0
}

/// Every index of `s` lies in the half-open window `[lo, hi)`.
pub open spec fn in_window<T>(s: Seq<(usize, T)>, lo: int, hi: int) -> bool {
    forall|i: int| 0 <= i < s.len() ==> lo <= #[trigger] s[i].0 < hi
}

/// Some pair of `s` carries the index `k`.
pub open spec fn contains_idx<T>(s: Seq<(usize, T)>, k: int) -> bool {
    exists|i: int| 0 <= i < s.len() && #[trigger] s[i].0 == k
}

/// `s` with `(k, v)` inserted at its sorted position (before any equal index).
pub open spec fn insert_sorted<T>(s: Seq<(usize, T)>, k: usize, v: T) -> Seq<(usize, T)>
    decreases s.len(),
{
    if s.len() == 0 {
        seq![(k, v)]
    } else if k < s[0].0 {
        seq![(k, v)] + s
    } else {
        seq![s[0]] + insert_sorted(s.drop_first(), k, v)
    }
}

/// Length of the maximal prefix of `s` holding exactly the consecutive
/// indices `c, c + 1, ...`: how many buffered pairs are ready to be released
/// when the cursor stands at `c`.
pub open spec fn ready_len<T>(s: Seq<(usize, T)>, c: int) -> int
    decreases s.len(),
{
    if s.len() > 0 && s[0].0 == c {
        1 + ready_len(s.drop_first(), c + 1)
    } else {
        0
    }
}

/// The ready run is a prefix of consecutive indices starting at `c`, and it
/// is maximal: the pair right after it, if any, does not carry the next
/// consecutive index.
pub proof fn lemma_ready_len_bounds<T>(s: Seq<(usize, T)>, c: int)
    ensures
        0 <= ready_len(s, c) <= s.len(),
        forall|i: int| 0 <= i < ready_len(s, c) ==> #[trigger] s[i].0 == c + i,
        ready_len(s, c) < s.len() ==> s[ready_len(s, c)].0 != c + ready_len(s, c),
    decreases s.len(),
{
    if s.len() > 0 && s[0].0 == c {
        lemma_ready_len_bounds(s.drop_first(), c + 1);
        assert(forall|i: int|
            1 <= i < ready_len(s, c) ==> #[trigger] s[i].0 == s.drop_first()[i - 1].0);
    }
}

/// A buffer holding exactly the consecutive indices `c, c + 1, ...` is ready
/// in its entirety.
pub proof fn lemma_ready_len_full<T>(s: Seq<(usize, T)>, c: int)
    requires
        forall|i: int| 0 <= i < s.len() ==> #[trigger] s[i].0 == c + i,
    ensures
        ready_len(s, c) == s.len(),
    decreases s.len(),
{
    if s.len() > 0 {
        assert(forall|i: int|
            0 <= i < s.drop_first().len() ==> #[trigger] s.drop_first()[i].0 == s[i + 1].0);
        lemma_ready_len_full(s.drop_first(), c + 1);
    }
}

/// Nothing is ready while the index owed next is absent from the buffer.
pub proof fn lemma_ready_len_absent<T>(s: Seq<(usize, T)>, c: int)
    requires
        !contains_idx(s, c),
    ensures
        ready_len(s, c) == 0,
{
}

/// Inserting a fresh index into a strictly sorted buffer keeps it strictly
/// sorted, grows it by one, and changes its contents by exactly that pair.
pub proof fn lemma_insert_sorted_props<T>(s: Seq<(usize, T)>, k: usize, v: T)
    requires
        idx_sorted(s),
        !contains_idx(s, k as int),
    ensures
        insert_sorted(s, k, v).len() == s.len() + 1,
        idx_sorted(insert_sorted(s, k, v)),
        forall|i: int|
            0 <= i < insert_sorted(s, k, v).len() ==> (#[trigger] insert_sorted(s, k, v)[i] == (
            k,
            v,
            ) || s.contains(insert_sorted(s, k, v)[i])),
        forall|i: int| 0 <= i < s.len() ==> insert_sorted(s, k, v).contains(#[trigger] s[i]),
        insert_sorted(s, k, v).contains((k, v)),
        forall|j: int|
            #[trigger] contains_idx(insert_sorted(s, k, v), j) <==> (j == k || contains_idx(s, j)),
    decreases s.len(),
{
    let m = insert_sorted(s, k, v);
    if s.len() == 0 {
        assert(m =~= seq![(k, v)]);
        assert forall|j: int| #[trigger] contains_idx(m, j) implies (j == k || contains_idx(s, j)) by {
            let i = choose|i: int| 0 <= i < m.len() && #[trigger] m[i].0 == j;
            assert(m[i] == (k, v));
        }
        assert(m[0].0 == k);
    } else if k < s[0].0 {
        assert(m =~= seq![(k, v)] + s);
        assert forall|i: int, j: int| 0 <= i < j < m.len() implies m[i].0 < m[j].0 by {
            if i == 0 {
                assert(m[j] == s[j - 1]);
                if j > 1 {
                    assert(s[0].0 < s[j - 1].0);
                }
            } else {
                assert(m[i] == s[i - 1] && m[j] == s[j - 1]);
            }
        }
        assert forall|i: int| 0 <= i < m.len() implies (#[trigger] m[i] == (k, v) || s.contains(
            m[i],
        )) by {
            if i > 0 {
                assert(m[i] == s[i - 1]);
            }
        }
        assert forall|i: int| 0 <= i < s.len() implies m.contains(#[trigger] s[i]) by {
            assert(m[i + 1] == s[i]);
        }
        assert(m[0] == (k, v));
        assert forall|j: int| #[trigger] contains_idx(m, j) implies (j == k || contains_idx(s, j)) by {
            let i = choose|i: int| 0 <= i < m.len() && #[trigger] m[i].0 == j;
            if i > 0 {
                assert(s[i - 1].0 == j);
            }
        }
        assert forall|j: int| (j == k || contains_idx(s, j)) implies #[trigger] contains_idx(
            m,
            j,
        ) by {
            if j == k {
                assert(m[0].0 == j);
            } else {
                let i = choose|i: int| 0 <= i < s.len() && #[trigger] s[i].0 == j;
                assert(m[i + 1].0 == j);
            }
        }
    } else {
        let t = s.drop_first();
        let mt = insert_sorted(t, k, v);
        assert(s[0].0 != k);
        assert forall|i: int| 0 <= i < t.len() implies #[trigger] t[i].0 > s[0].0 by {
            assert(t[i] == s[i + 1]);
        }
        assert(idx_sorted(t)) by {
            assert(forall|i: int| 0 <= i < t.len() ==> #[trigger] t[i] == s[i + 1]);
        }
        assert(!contains_idx(t, k as int)) by {
            if contains_idx(t, k as int) {
                let i = choose|i: int| 0 <= i < t.len() && #[trigger] t[i].0 == k;
                assert(s[i + 1].0 == k);
            }
        }
        lemma_insert_sorted_props(t, k, v);
        assert(m =~= seq![s[0]] + mt);
        assert forall|i: int, j: int| 0 <= i < j < m.len() implies m[i].0 < m[j].0 by {
            if i == 0 {
                assert(m[j] == mt[j - 1]);
                if mt[j - 1] == (k, v) {
                    assert(m[j].0 == k > s[0].0);
                } else {
                    assert(t.contains(mt[j - 1]));
                    let w = choose|w: int| 0 <= w < t.len() && t[w] == mt[j - 1];
                    assert(t[w].0 > s[0].0);
                }
            } else {
                assert(m[i] == mt[i - 1] && m[j] == mt[j - 1]);
            }
        }
        assert forall|i: int| 0 <= i < m.len() implies (#[trigger] m[i] == (k, v) || s.contains(
            m[i],
        )) by {
            if i == 0 {
                assert(s[0] == m[0]);
            } else {
                assert(m[i] == mt[i - 1]);
                if mt[i - 1] != (k, v) {
                    assert(t.contains(mt[i - 1]));
                    let w = choose|w: int| 0 <= w < t.len() && t[w] == mt[i - 1];
                    assert(s[w + 1] == mt[i - 1]);
                }
            }
        }
        assert forall|i: int| 0 <= i < s.len() implies m.contains(#[trigger] s[i]) by {
            if i == 0 {
                assert(m[0] == s[0]);
            } else {
                assert(mt.contains(t[i - 1]));
                let w = choose|w: int| 0 <= w < mt.len() && mt[w] == t[i - 1];
                assert(m[w + 1] == s[i]);
            }
        }
        assert(m.contains((k, v))) by {
            let w = choose|w: int| 0 <= w < mt.len() && mt[w] == (k, v);
            assert(m[w + 1] == (k, v));
        }
        assert forall|j: int| #[trigger] contains_idx(m, j) implies (j == k || contains_idx(s, j)) by {
            let i = choose|i: int| 0 <= i < m.len() && #[trigger] m[i].0 == j;
            if i == 0 {
                assert(s[0].0 == j);
            } else {
                assert(contains_idx(mt, j));
                if j != k {
                    let w = choose|w: int| 0 <= w < t.len() && #[trigger] t[w].0 == j;
                    assert(s[w + 1].0 == j);
                }
            }
        }
        assert forall|j: int| (j == k || contains_idx(s, j)) implies #[trigger] contains_idx(
            m,
            j,
        ) by {
            if j == k {
                let w = choose|w: int| 0 <= w < mt.len() && mt[w] == (k, v);
                assert(m[w + 1].0 == j);
            } else {
                let i = choose|i: int| 0 <= i < s.len() && #[trigger] s[i].0 == j;
                if i == 0 {
                    assert(m[0].0 == j);
                } else {
                    assert(mt.contains(t[i - 1]));
                    let w = choose|w: int| 0 <= w < mt.len() && mt[w] == t[i - 1];
                    assert(m[w + 1].0 == j);
                }
            }
        }
    }
}

/// Inserting at the position that splits the indices below `k` from those
/// above it is exactly the sorted insertion.
pub proof fn lemma_insert_at_sorted_pos<T>(s: Seq<(usize, T)>, k: usize, v: T, p: int)
    requires
        idx_sorted(s),
        0 <= p <= s.len(),
        forall|i: int| 0 <= i < p ==> #[trigger] s[i].0 < k,
        forall|i: int| p <= i < s.len() ==> #[trigger] s[i].0 > k,
    ensures
        insert_sorted(s, k, v) == s.insert(p, (k, v)),
    decreases s.len(),
{
    if p == 0 {
        if s.len() == 0 {
            assert(insert_sorted(s, k, v) =~= s.insert(0, (k, v)));
        } else {
            assert(s[0].0 > k);
            assert(insert_sorted(s, k, v) =~= s.insert(0, (k, v)));
        }
    } else {
        let t = s.drop_first();
        assert(s[0].0 < k);
        assert(forall|i: int| 0 <= i < t.len() ==> #[trigger] t[i] == s[i + 1]);
        lemma_insert_at_sorted_pos(t, k, v, p - 1);
        assert(insert_sorted(s, k, v) =~= s.insert(p, (k, v)));
    }
}

/// The values of the pairs of `s`, in the same order.
pub open spec fn values_of<T>(s: Seq<(usize, T)>) -> Seq<T> {
    s.map_values(|p: (usize, T)| p.1)
}

/// In a strictly index-sorted buffer the indices grow at least as fast as the
/// positions.
pub proof fn lemma_sorted_gap<T>(s: Seq<(usize, T)>, i: int)
    requires
        idx_sorted(s),
        0 <= i < s.len(),
    ensures
        s[i].0 >= s[0].0 + i,
    decreases i,
{
    if i > 0 {
        lemma_sorted_gap(s, i - 1);
        assert(s[i - 1].0 < s[i].0);
    }
}

/// A completion that is not the one owed next releases nothing: until the
/// cursor's own index arrives, submissions only buffer.
pub proof fn lemma_no_release_without_cursor<T>(s: Seq<(usize, T)>, k: usize, v: T, c: int)
    requires
        idx_sorted(s),
        !contains_idx(s, k as int),
        !contains_idx(s, c),
        k != c,
    ensures
        ready_len(insert_sorted(s, k, v), c) == 0,
{
    lemma_insert_sorted_props(s, k, v);
    lemma_ready_len_absent(insert_sorted(s, k, v), c);
}

/// Worst-case skew: with the whole tail already buffered (exactly the
/// indices `1, ..., len`) and nothing released, no value is ready; the
/// arrival of index `0` then releases the entire burst at once, fully in
/// order.
pub proof fn lemma_worst_case_skew<T>(s: Seq<(usize, T)>, v: T)
    requires
        forall|i: int| 0 <= i < s.len() ==> (#[trigger] s[i].0) == i + 1,
    ensures
        ready_len(s, 0) == 0,
        ready_len(insert_sorted(s, 0, v), 0) == s.len() + 1,
{
    if s.len() > 0 {
        assert(s[0].0 == 1);
    }
    assert(idx_sorted(s));
    assert(!contains_idx(s, 0)) by {
        if contains_idx(s, 0) {
            let i = choose|i: int| 0 <= i < s.len() && (#[trigger] s[i].0) == 0;
        }
    }
    lemma_insert_at_sorted_pos(s, 0, v, 0);
    let m = insert_sorted(s, 0, v);
    assert(m =~= s.insert(0, (0, v)));
    assert(forall|i: int| 1 <= i < m.len() ==> #[trigger] m[i] == s[i - 1]);
    assert forall|i: int| 0 <= i < m.len() implies (#[trigger] m[i].0) == 0 + i by {
        if i > 0 {
            assert(m[i] == s[i - 1]);
        }
    }
    lemma_ready_len_full(m, 0);
}

/// No two pairs of `arr` carry the same index.
pub open spec fn distinct_indices<T>(arr: Seq<(usize, T)>) -> bool {
    forall|a: int, b: int| 0 <= a < b < arr.len() ==> arr[a].0 != arr[b].0
}

/// `arr` submits each index in `[0, n)` exactly once, in some order: it is a
/// well-formed producer's completion log for `n` elements.
pub open spec fn is_arrival_permutation<T>(arr: Seq<(usize, T)>, n: int) -> bool {
    &&& arr.len() == n
    &&& distinct_indices(arr)
    &&& forall|a: int| 0 <= a < arr.len() ==> (#[trigger] arr[a].0) < n
}

/// The value that `arr` submits under index `k` (meaningful when exactly one
/// pair of `arr` carries `k`).
pub open spec fn arrival_value<T>(arr: Seq<(usize, T)>, k: int) -> T {
    arr[choose|a: int| 0 <= a < arr.len() && (#[trigger] arr[a].0) == k].1
}

/// Reassembles out-of-order `(index, value)` submissions into an in-order
/// release stream.
///
/// `cursor` is the index the consumer is owed next; `pending` holds the
/// submitted pairs whose index is still ahead of the cursor, sorted by
/// ascending index. Exactly the indices in `[0, cursor)` have been released,
/// each once, in ascending order.
pub struct ReorderStage<T> {
    n: usize,
    cursor: usize,
    pending: Vec<(usize, T)>,
}

impl<T> ReorderStage<T> {
    /// The buffered pairs, sorted by ascending index.
    pub closed spec fn pending_view(&self) -> Seq<(usize, T)> {
        self.pending@
    }

    /// The index the consumer is owed next; also the number of values
    /// released so far.
    pub closed spec fn cursor_view(&self) -> int {
        self.cursor as int
    }

    /// The expected number of submissions.
    pub closed spec fn total(&self) -> int {
        self.n as int
    }

    /// Structural invariant: the cursor never passes the total, the buffer is
    /// strictly sorted by index, every buffered index is still owed (at or
    /// past the cursor, below the total), and the pair owed next is never
    /// left sitting in the buffer.
    pub open spec fn wf(&self) -> bool {
        &&& self.cursor_view() <= self.total()
        &&& idx_sorted(self.pending_view())
        &&& in_window(self.pending_view(), self.cursor_view(), self.total())
        &&& (self.pending_view().len() > 0 ==> self.pending_view()[0].0 != self.cursor_view())
    }

    /// A stage expecting `n` submissions, with nothing submitted yet.
    pub fn new(n: usize) -> (stage: Self)
        ensures
            stage.wf(),
            stage.total() == n,
            stage.cursor_view() == 0,
            stage.pending_view() =~= Seq::<(usize, T)>::empty(),
    {
        ReorderStage { n, cursor: 0, pending: Vec::new() }
    }

    /// Accepts the completed element `index`, buffers it, and releases the
    /// maximal run of values now ready, in ascending index order.
    ///
    /// On success, the released values are the longest prefix of consecutive
    /// indices, starting at the cursor, of the buffer with `(index, value)`
    /// inserted; the cursor advances past them and they leave the buffer. An
    /// index at or beyond the total is rejected as out of range; one already
    /// delivered or already buffered is rejected as a duplicate; a rejection
    /// leaves the stage unchanged.
    pub fn submit(&mut self, index: usize, value: T) -> (r: Result<
        Vec<T>,
        ProtocolViolation,
    >)
        requires
            old(self).wf(),
        ensures
            final(self).wf(),
            final(self).total() == old(self).total(),
            index >= old(self).total() ==> (r == Err::<Vec<T>, ProtocolViolation>(
                ProtocolViolation::IndexOutOfRange,
            ) && *final(self) == *old(self)),
            index < old(self).total() && (index < old(self).cursor_view() || contains_idx(
                old(self).pending_view(),
                index as int,
            )) ==> (r == Err::<Vec<T>, ProtocolViolation>(ProtocolViolation::DuplicateIndex)
                && *final(self) == *old(self)),
            old(self).cursor_view() <= index < old(self).total() && !contains_idx(
                old(self).pending_view(),
                index as int,
            ) ==> ({
                let m = insert_sorted(old(self).pending_view(), index, value);
                let k = ready_len(m, old(self).cursor_view());
                &&& r matches Ok(out) && out@ == values_of(m.subrange(0, k))
                &&& final(self).cursor_view() == old(self).cursor_view() + k
                &&& final(self).pending_view() == m.subrange(k, m.len() as int)
            }),
    {
        if index >= self.n {
            return Err(ProtocolViolation::IndexOutOfRange);
        }
        if index < self.cursor {
            return Err(ProtocolViolation::DuplicateIndex);
        }
        let ghost p0 = self.pending@;
        let ghost c0 = self.cursor as int;
        let ghost n0 = self.n as int;

        let mut p: usize = 0;
        while p < self.pending.len() && self.pending[p].0 < index
            invariant
                0 <= p <= self.pending@.len(),
                self.pending@ == p0,
                forall|i: int| 0 <= i < p ==> #[trigger] p0[i].0 < index,
                idx_sorted(p0),
            decreases self.pending@.len() - p,
        {
            p = p + 1;
        }
        if p < self.pending.len() && self.pending[p].0 == index {
            return Err(ProtocolViolation::DuplicateIndex);
        }
        proof {
            assert forall|i: int| p <= i < p0.len() implies #[trigger] p0[i].0 > index by {
                if i == p {
                    assert(p0[i].0 >= index && p0[i].0 != index);
                } else {
                    assert(p0[p as int].0 < p0[i].0);
                    assert(p0[p as int].0 >= index);
                }
            }
            assert(!contains_idx(p0, index as int));
            lemma_insert_at_sorted_pos(p0, index, value, p as int);
            lemma_insert_sorted_props(p0, index, value);
        }
        let ghost m = insert_sorted(p0, index, value);
        self.pending.insert(p, (index, value));
        proof {
            assert(self.pending@ == m);
            assert(in_window(m, c0, n0)) by {
                assert forall|i: int| 0 <= i < m.len() implies c0 <= #[trigger] m[i].0 < n0 by {
                    if m[i] != (index, value) {
                        assert(p0.contains(m[i]));
                        let w = choose|w: int| 0 <= w < p0.len() && p0[w] == m[i];
                        assert(c0 <= p0[w].0 < n0);
                    }
                }
            }
            lemma_ready_len_bounds(m, c0);
        }

        let mut out: Vec<T> = Vec::new();
        while self.pending.len() > 0 && self.pending[0].0 == self.cursor
            invariant
                idx_sorted(m),
                in_window(m, c0, n0),
                self.n == n0,
                c0 <= self.cursor <= self.n,
                self.cursor - c0 + self.pending@.len() == m.len(),
                out@.len() == self.cursor - c0,
                self.pending@ == m.subrange(self.cursor - c0, m.len() as int),
                out@ == values_of(m.subrange(0, self.cursor - c0)),
                forall|i: int| 0 <= i < self.cursor - c0 ==> #[trigger] m[i].0 == c0 + i,
                ready_len(m, c0) == (self.cursor - c0) + ready_len(
                    self.pending@,
                    self.cursor as int,
                ),
            decreases self.pending@.len(),
        {
            let ghost pend = self.pending@;
            let ghost cur = self.cursor as int;
            let pair = self.pending.remove(0);
            out.push(pair.1);
            proof {
                assert(pend.remove(0) =~= pend.drop_first());
                assert(ready_len(pend, cur) == 1 + ready_len(pend.drop_first(), cur + 1));
                let j = cur - c0;
                assert(m[j] == pend[0]);
                assert(m[j].0 == c0 + j);
                assert(m[j].0 < n0);
                assert(self.pending@ =~= m.subrange(j + 1, m.len() as int));
                assert(m.subrange(0, j + 1) =~= m.subrange(0, j).push(m[j]));
                assert(out@ =~= values_of(m.subrange(0, j + 1)));
            }
            self.cursor = self.cursor + 1;
        }
        proof {
            let k = self.cursor - c0;
            assert(ready_len(self.pending@, self.cursor as int) == 0);
            assert(k == ready_len(m, c0));
            assert(idx_sorted(self.pending@)) by {
                assert(forall|i: int|
                    0 <= i < self.pending@.len() ==> #[trigger] self.pending@[i] == m[i + k]);
            }
            assert(in_window(self.pending@, self.cursor as int, n0)) by {
                assert forall|i: int|
                    0 <= i < self.pending@.len() implies self.cursor
                    <= #[trigger] self.pending@[i].0 < n0 by {
                    assert(self.pending@[i] == m[i + k]);
                    if k > 0 {
                        assert(m[k - 1].0 == c0 + k - 1);
                        assert(m[k - 1].0 < m[i + k].0);
                    }
                }
            }
            if self.pending@.len() > 0 {
                assert(self.pending@[0] == m[k]);
            }
            if k > 0 {
                assert(m[k - 1].0 == c0 + k - 1);
                assert(m[k - 1].0 < n0);
            }
        }
        Ok(out)
    }

    /// Confirms that every expected value has been released.
    ///
    /// Succeeds exactly when the cursor has reached the total, that is, when
    /// all indices in the expected range have been submitted and released;
    /// the buffer is then necessarily empty. Otherwise the stage is
    /// incomplete: some index is still owed.
    pub fn finalize(&self) -> (r: Result<(), ProtocolViolation>)
        requires
            self.wf(),
        ensures
            r is Ok <==> self.cursor_view() == self.total(),
            r is Ok ==> self.pending_view().len() == 0,
            r is Err ==> r == Err::<(), ProtocolViolation>(ProtocolViolation::Incomplete),
    {
        if self.cursor == self.n {
            proof {
                self.lemma_complete_drained();
            }
            Ok(())
        } else {
            Err(ProtocolViolation::Incomplete)
        }
    }

    /// Runs one whole reorder operation over a recorded arrival log: submits
    /// each `(index, value)` pair in arrival order and collects every
    /// released value.
    ///
    /// This is the single-threaded drain of the stage. Whatever order the
    /// log interleaves the completions in, the result lists the submitted
    /// values in original index order, each exactly once. It succeeds
    /// exactly when the log submits each index in `[0, n)` once: a duplicate
    /// or out-of-range index is reported as the stage rejects it, and a log
    /// that leaves indices unsubmitted is reported as incomplete.
    #[verifier::rlimit(60)]
    pub fn reorder_all(n: usize, arrivals: Vec<(usize, T)>) -> (r: Result<
        Vec<T>,
        ProtocolViolation,
    >)
        ensures
            r is Ok <==> is_arrival_permutation(arrivals@, n as int),
            r matches Ok(out) ==> ({
                &&& out@.len() == n
                &&& forall|k: int|
                    0 <= k < n ==> #[trigger] out@[k] == arrival_value(arrivals@, k)
            }),
    {
        let ghost arr = arrivals@;
        let mut stage = ReorderStage::<T>::new(n);
        let mut rest = arrivals;
        let mut out: Vec<T> = Vec::new();
        let ghost mut j: int = 0;
        while rest.len() > 0
            invariant
                arr == arrivals@,
                stage.wf(),
                stage.total() == n,
                0 <= j <= arr.len(),
                rest@ == arr.subrange(j, arr.len() as int),
                out@.len() == stage.cursor_view(),
                j == stage.cursor_view() + stage.pending_view().len(),
                forall|k: int|
                    #[trigger] contains_idx(arr.subrange(0, j), k) ==> (0 <= k
                        < stage.cursor_view() || contains_idx(stage.pending_view(), k)),
                forall|k: int|
                    0 <= k < stage.cursor_view() ==> contains_idx(arr.subrange(0, j), k),
                forall|i: int|
                    0 <= i < stage.pending_view().len() ==> arr.subrange(0, j).contains(
                        #[trigger] stage.pending_view()[i],
                    ),
                forall|k: int|
                    0 <= k < stage.cursor_view() ==> arr.subrange(0, j).contains(
                        ((k as usize), #[trigger] out@[k]),
                    ),
                distinct_indices(arr.subrange(0, j)),
                forall|a: int| 0 <= a < j ==> (#[trigger] arr[a].0) < n,
            decreases rest@.len(),
        {
            let ghost sub = arr.subrange(0, j);
            let ghost st0 = stage;
            let ghost out0 = out@;
            let ghost restv = rest@;
            let pair = rest.remove(0);
            let (idx, val) = pair;
            proof {
                assert(restv[0] == arr[j]);
                assert(arr[j] == (idx, val));
                assert(rest@ =~= arr.subrange(j + 1, arr.len() as int));
            }
            match stage.submit(idx, val) {
                Ok(mut rel) => {
                    let ghost c0 = st0.cursor_view();
                    let ghost m = insert_sorted(st0.pending_view(), idx, val);
                    let ghost kk = ready_len(m, c0);
                    let ghost relv = rel@;
                    let ghost sub2 = arr.subrange(0, j as int + 1);
                    proof {
                        // the submission was accepted, so the index is fresh and in range
                        assert(idx < n);
                        assert(c0 <= idx && !contains_idx(st0.pending_view(), idx as int));
                        lemma_insert_sorted_props(st0.pending_view(), idx, val);
                        lemma_ready_len_bounds(m, c0);
                        assert(forall|a: int| 0 <= a < j ==> sub2[a] == sub[a]);
                        assert(sub2[j] == (idx, val));
                        assert(stage.cursor_view() == c0 + kk);
                        assert(stage.pending_view() == m.subrange(kk, m.len() as int));
                        assert(relv.len() == kk);
                        assert(forall|i: int|
                            0 <= i < kk ==> #[trigger] relv[i] == m.subrange(0, kk)[i].1);
                        assert(forall|i: int| 0 <= i < kk ==> #[trigger] m.subrange(0, kk)[i] == m[i]);

                        // the index is new to the log so far
                        assert(!contains_idx(sub, idx as int));

                        assert forall|k: int| #[trigger] contains_idx(sub2, k) implies (0 <= k
                            < stage.cursor_view() || contains_idx(stage.pending_view(), k)) by {
                            let a = choose|a: int|
                                0 <= a < sub2.len() && (#[trigger] sub2[a].0) == k;
                            if a < j {
                                assert(sub[a].0 == k);
                                assert(contains_idx(sub, k));
                            } else {
                                assert(k == idx);
                            }
                            if c0 <= k {
                                assert(contains_idx(m, k));
                                let i = choose|i: int| 0 <= i < m.len() && (#[trigger] m[i].0) == k;
                                if i < kk {
                                    assert(m[i].0 == c0 + i);
                                } else {
                                    assert(stage.pending_view()[i - kk] == m[i]);
                                    assert(contains_idx(stage.pending_view(), k));
                                }
                            }
                        }

                        assert forall|k: int| 0 <= k < stage.cursor_view() implies contains_idx(
                            sub2,
                            k,
                        ) by {
                            if k < c0 {
                                assert(contains_idx(sub, k));
                                let a = choose|a: int|
                                    0 <= a < sub.len() && (#[trigger] sub[a].0) == k;
                                assert(sub2[a].0 == k);
                            } else {
                                let i = k - c0;
                                assert(m[i].0 == c0 + i);
                                if m[i] == (idx, val) {
                                    assert(sub2[j].0 == k);
                                } else {
                                    assert(st0.pending_view().contains(m[i]));
                                    let a = choose|a: int|
                                        0 <= a < sub.len() && sub[a] == m[i];
                                    assert(sub2[a].0 == k);
                                }
                            }
                        }

                        assert forall|i: int|
                            0 <= i < stage.pending_view().len() implies sub2.contains(
                            #[trigger] stage.pending_view()[i],
                        ) by {
                            assert(stage.pending_view()[i] == m[i + kk]);
                            if m[i + kk] == (idx, val) {
                                assert(sub2[j] == m[i + kk]);
                            } else {
                                assert(st0.pending_view().contains(m[i + kk]));
                                let a = choose|a: int|
                                    0 <= a < sub.len() && sub[a] == m[i + kk];
                                assert(sub2[a] == m[i + kk]);
                            }
                        }
                    }
                    out.append(&mut rel);
                    proof {
                        assert(out@ == out0 + relv);
                        assert forall|k: int| 0 <= k < stage.cursor_view() implies sub2.contains(
                            ((k as usize), #[trigger] out@[k]),
                        ) by {
                            if k < c0 {
                                assert(out@[k] == out0[k]);
                                assert(sub.contains(((k as usize), out0[k])));
                                let a = choose|a: int|
                                    0 <= a < sub.len() && sub[a] == ((k as usize), out0[k]);
                                assert(sub2[a] == ((k as usize), out@[k]));
                            } else {
                                let i = k - c0;
                                assert(out@[k] == relv[i]);
                                assert(relv[i] == m[i].1);
                                assert(m[i].0 == c0 + i);
                                assert(m[i] == ((k as usize), out@[k]));
                                if m[i] == (idx, val) {
                                    assert(sub2[j] == m[i]);
                                } else {
                                    assert(st0.pending_view().contains(m[i]));
                                    let a = choose|a: int|
                                        0 <= a < sub.len() && sub[a] == m[i];
                                    assert(sub2[a] == m[i]);
                                }
                            }
                        }

                        assert forall|a: int, b: int| 0 <= a < b < sub2.len() implies sub2[a].0
                            != sub2[b].0 by {
                            if b < j {
                                assert(sub[a].0 != sub[b].0);
                            } else {
                                if sub2[a].0 == idx {
                                    assert(sub[a].0 == idx);
                                    assert(contains_idx(sub, idx as int));
                                }
                            }
                        }
                        assert(distinct_indices(sub2));
                    }
                    proof {
                        j = j + 1;
                    }
                },
                Err(e) => {
                    proof {
                        if idx >= n {
                            assert(arr[j].0 >= n);
                            assert(!is_arrival_permutation(arr, n as int));
                        } else {
                            // a fresh in-range index would have been accepted,
                            // so this index was already delivered or buffered
                            assert(idx < st0.cursor_view() || contains_idx(
                                st0.pending_view(),
                                idx as int,
                            ));
                            assert(contains_idx(sub, idx as int)) by {
                                if idx < st0.cursor_view() {
                                } else {
                                    let i = choose|i: int|
                                        0 <= i < st0.pending_view().len()
                                            && (#[trigger] st0.pending_view()[i].0) == idx;
                                    assert(sub.contains(st0.pending_view()[i]));
                                    let a = choose|a: int|
                                        0 <= a < sub.len() && sub[a] == st0.pending_view()[i];
                                    assert(sub[a].0 == idx);
                                }
                            }
                            let a = choose|a: int| 0 <= a < sub.len() && (#[trigger] sub[a].0) == idx;
                            assert(arr[a].0 == arr[j].0);
                            assert(!distinct_indices(arr));
                            assert(!is_arrival_permutation(arr, n as int));
                        }
                    }
                    return Err(e);
                },
            }
        }
        proof {
            assert(arr.subrange(0, j) =~= arr);
        }
        match stage.finalize() {
            Ok(_) => {
                proof {
                    assert(stage.cursor_view() == n && stage.pending_view().len() == 0);
                    assert(arr.len() == n);
                    assert(is_arrival_permutation(arr, n as int));
                    assert forall|k: int| 0 <= k < n implies #[trigger] out@[k] == arrival_value(
                        arr,
                        k,
                    ) by {
                        assert(arr.contains(((k as usize), out@[k])));
                        let a = choose|a: int|
                            0 <= a < arr.len() && arr[a] == ((k as usize), out@[k]);
                        assert(arr[a].0 == k);
                        let a2 = choose|a2: int|
                            0 <= a2 < arr.len() && (#[trigger] arr[a2].0) == k;
                        assert(arr[a2].0 == k);
                        if a != a2 {
                            assert(arr[a].0 != arr[a2].0);
                        }
                        assert(arrival_value(arr, k) == arr[a].1);
                    }
                }
                Ok(out)
            },
            Err(e) => {
                proof {
                    if is_arrival_permutation(arr, n as int) {
                        let pend = stage.pending_view();
                        let c = stage.cursor_view();
                        let len = pend.len() as int;
                        assert(c < n);
                        assert(c + len == n);
                        assert(len >= 1);
                        assert(pend[0].0 >= c + 1);
                        lemma_sorted_gap(pend, len - 1);
                        assert(pend[len - 1].0 >= c + 1 + (len - 1));
                        assert(pend[len - 1].0 < n);
                    }
                }
                Err(e)
            },
        }
    }

    /// The index owed to the consumer next; also how many values have been
    /// released so far.
    pub fn delivered(&self) -> (r: usize)
        ensures
            r == self.cursor_view(),
    {
        self.cursor
    }

    /// The number of submissions the stage expects in total.
    pub fn expected(&self) -> (r: usize)
        ensures
            r == self.total(),
    {
        self.n
    }

    /// How many completed pairs are buffered, waiting for an earlier index.
    pub fn buffered(&self) -> (r: usize)
        ensures
            r == self.pending_view().len(),
    {
        self.pending.len()
    }

    /// Once the cursor has reached the total, nothing can remain buffered:
    /// every buffered index would have to lie at or past the cursor and still
    /// below the total.
    pub proof fn lemma_complete_drained(&self)
        requires
            self.wf(),
            self.cursor_view() == self.total(),
        ensures
            self.pending_view().len() == 0,
    {
        if self.pending_view().len() > 0 {
            assert(self.cursor_view() <= self.pending_view()[0].0 < self.total());
        }
    }
}

} // verus!
