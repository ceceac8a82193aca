//! Train/test/validation streaming: the streaming partitioner fixed at three
//! partitions, emitting rows as three-slot arrays.
//!
//! Same contract and algorithm as the general partitioner; only the row type
//! is a fixed triple.
use vstd::prelude::*;
use vstd::multiset::Multiset;

use crate::SplitError;
use crate::stream::PartsIterator;
use crate::stream::assigned_to;
use crate::stream::lemma_assigned_to_absent;
use crate::stream::lemma_partition_preserves_multiset;
use crate::stream::opt_seq;
use crate::stream::parts_multiset;
use crate::stream::seq_rest;
use crate::sum_weights;
use crate::valid_weights;

verus! {

/// The elements that slot `i` carries over a sequence of three-slot rows.
pub open spec fn column_ttv<T>(rows: Seq<[Option<T>; 3]>, i: int) -> Seq<T>
    decreases rows.len(),
{
    if rows.len() == 0 {
        Seq::empty()
    } else {
        column_ttv(rows.drop_last(), i) + opt_seq(rows.last()@[i])
    }
}

/// The multiset of all elements carried by the first `k` columns.
pub open spec fn columns_multiset_ttv<T>(rows: Seq<[Option<T>; 3]>, k: int) -> Multiset<T>
    decreases k,
{
    if k <= 0 {
        Multiset::empty()
    } else {
        columns_multiset_ttv(rows, k - 1).add(column_ttv(rows, k - 1).to_multiset())
    }
}

/// Spec of a complete three-way streaming run, as for the general
/// partitioner: some routing of the source elements to positive-weight
/// partitions explains every column exactly, in arrival order.
pub open spec fn stream_assignment_ttv<T>(
    src: Seq<T>,
    ws: Seq<i64>,
    rows: Seq<[Option<T>; 3]>,
    assign: Seq<int>,
) -> bool {
    &&& assign.len() == src.len()
    &&& forall|k: int|
        0 <= k < assign.len() ==> 0 <= #[trigger] assign[k] < ws.len() && ws[assign[k]] > 0
    &&& forall|i: int| 0 <= i < ws.len() ==> column_ttv(rows, i) == assigned_to(src, assign, i)
}

proof fn lemma_columns_multiset_pointwise_ttv<T>(
    rows: Seq<[Option<T>; 3]>,
    elems: Seq<T>,
    assign: Seq<int>,
    k: int,
)
    requires
        forall|i: int| 0 <= i < k ==> column_ttv(rows, i) == assigned_to(elems, assign, i),
    ensures
        columns_multiset_ttv(rows, k) == parts_multiset(elems, assign, k),
    decreases k,
{
    if k > 0 {
        lemma_columns_multiset_pointwise_ttv(rows, elems, assign, k - 1);
    }
}

/// The streaming partitioner specialized to three partitions
/// (conventionally train, test and validation).
pub struct TTVIterator<T> {
    inner: PartsIterator<T>,
}

impl<T> TTVIterator<T> {
    /// The three weights this partitioner routes by.
    pub closed spec fn weights(self) -> Seq<i64> {
        self.inner.weights()
    }

    /// Elements not yet drawn from the source.
    pub closed spec fn remaining(self) -> Seq<T> {
        self.inner.remaining()
    }

    /// Elements waiting in partition `i`'s pending buffer, in arrival order.
    pub closed spec fn pending_at(self, i: int) -> Seq<T> {
        self.inner.pending_at(i)
    }

    /// Elements already emitted in slot `i`, in emission order.
    pub closed spec fn emitted_at(self, i: int) -> Seq<T> {
        self.inner.emitted_at(i)
    }

    /// Elements drawn from the source so far, in arrival order.
    pub closed spec fn consumed_seq(self) -> Seq<T> {
        self.inner.consumed_seq()
    }

    /// The partition each consumed element was routed to.
    pub closed spec fn assigned_seq(self) -> Seq<int> {
        self.inner.assigned_seq()
    }

    /// Total number of buffered elements.
    pub closed spec fn total_pending(self) -> int {
        self.inner.total_pending()
    }

    /// Structural invariant: the inner partitioner is well-formed and has
    /// exactly three partitions.
    pub closed spec fn wf(self) -> bool {
        &&& self.inner.wf()
        &&& self.inner.n() == 3
    }

    /// The per-partition part of `step_rel3`, as for the general partitioner.
    pub open spec fn step_slot3(pre: Self, post: Self, row: Seq<Option<T>>, i: int) -> bool {
        let base = pre.consumed_seq().len() as int;
        let fresh = assigned_to(
            post.consumed_seq().skip(base),
            post.assigned_seq().skip(base),
            i,
        );
        let owed = pre.pending_at(i) + fresh;
        &&& row[i] == if owed.len() == 0 {
            Option::<T>::None
        } else {
            Option::Some(owed[0])
        }
        &&& post.pending_at(i) == seq_rest(owed)
        &&& post.emitted_at(i) == pre.emitted_at(i) + opt_seq(row[i])
    }

    /// One step of the three-way partitioner, as for the general one.
    pub open spec fn step_rel3(pre: Self, post: Self, row: Seq<Option<T>>) -> bool {
        let pulled = post.consumed_seq().len() - pre.consumed_seq().len();
        &&& post.weights() == pre.weights()
        &&& row.len() == 3
        &&& ((forall|i: int| 0 <= i < 3 ==> pre.pending_at(i).len() > 0) ==> pulled == 0)
        &&& (!(forall|i: int| 0 <= i < 3 ==> pre.pending_at(i).len() > 0) ==> pulled == if pre.remaining().len() < 3 {
            pre.remaining().len() as int
        } else {
            3
        })
        &&& post.consumed_seq() == pre.consumed_seq() + pre.remaining().take(pulled)
        &&& post.remaining() == pre.remaining().skip(pulled)
        &&& post.assigned_seq().len() == post.consumed_seq().len()
        &&& post.assigned_seq().take(pre.assigned_seq().len() as int) == pre.assigned_seq()
        &&& forall|k: int|
            pre.assigned_seq().len() <= k < post.assigned_seq().len() ==> 0
                <= #[trigger] post.assigned_seq()[k] < 3 && pre.weights()[post.assigned_seq()[k]]
                > 0
        &&& forall|i: int| 0 <= i < 3 ==> Self::step_slot3(pre, post, row, i)
    }

    /// Builds a three-way partitioner over a source, rejecting negative or
    /// all-zero weights.
    pub fn new(source: Vec<T>, splits: [i64; 3]) -> (r: Result<TTVIterator<T>, SplitError>)
        requires
            sum_weights(splits@) <= i64::MAX,
        ensures
            match r {
                Ok(it) => {
                    &&& valid_weights(splits@)
                    &&& it.wf()
                    &&& it.weights() == splits@
                    &&& it.remaining() == source@
                    &&& it.consumed_seq() == Seq::<T>::empty()
                    &&& it.assigned_seq() == Seq::<int>::empty()
                    &&& forall|i: int|
                        0 <= i < 3 ==> it.pending_at(i).len() == 0 && it.emitted_at(i).len() == 0
                },
                Err(e) => e == SplitError::InvalidWeights && !valid_weights(splits@),
            },
    {
        let mut ws: Vec<i64> = Vec::new();
        ws.push(splits[0]);
        ws.push(splits[1]);
        ws.push(splits[2]);
        proof {
            assert(ws@ =~= splits@);
        }
        match PartsIterator::new(source, &ws) {
            Ok(inner) => Ok(TTVIterator { inner }),
            Err(e) => Err(e),
        }
    }

    /// Appends one element to the not-yet-consumed part of the source.
    pub fn push_source(&mut self, x: T)
        requires
            old(self).wf(),
        ensures
            final(self).wf(),
            final(self).weights() == old(self).weights(),
            final(self).remaining() == old(self).remaining().push(x),
            final(self).consumed_seq() == old(self).consumed_seq(),
            final(self).assigned_seq() == old(self).assigned_seq(),
            forall|i: int|
                0 <= i < 3 ==> final(self).pending_at(i) == old(self).pending_at(i)
                    && final(self).emitted_at(i) == old(self).emitted_at(i),
    {
        self.inner.push_source(x);
    }

    /// Number of source elements not yet consumed.
    pub fn buffered_len(&self) -> (len: usize)
        ensures
            len == self.remaining().len(),
    {
        self.inner.buffered_len()
    }

    /// Produces the next three-slot row, or signals exhaustion; same
    /// protocol as the general partitioner.
    pub fn next(&mut self) -> (r: Option<[Option<T>; 3]>)
        requires
            old(self).wf(),
        ensures
            final(self).wf(),
            final(self).weights() == old(self).weights(),
            (r is None) <==> (old(self).remaining().len() == 0 && forall|i: int|
                0 <= i < 3 ==> old(self).pending_at(i).len() == 0),
            match r {
                Option::None => {
                    &&& final(self).remaining() == old(self).remaining()
                    &&& final(self).consumed_seq() == old(self).consumed_seq()
                    &&& final(self).assigned_seq() == old(self).assigned_seq()
                    &&& forall|i: int|
                        0 <= i < 3 ==> final(self).pending_at(i) == old(self).pending_at(i)
                            && final(self).emitted_at(i) == old(self).emitted_at(i)
                },
                Option::Some(row) => {
                    &&& Self::step_rel3(*old(self), *final(self), row@)
                    &&& (final(self).remaining().len() < old(self).remaining().len()
                        || (final(self).remaining() == old(self).remaining()
                            && final(self).total_pending() < old(self).total_pending()))
                },
            },
    {
        let ghost pre = *self;
        let step = self.inner.next();
        match step {
            Option::Some(mut row_vec) => {
                let ghost rv = row_vec@;
                let a = row_vec.remove(0);
                let b = row_vec.remove(0);
                let c = row_vec.remove(0);
                let row: [Option<T>; 3] = [a, b, c];
                proof {
                    assert(a == rv[0] && b == rv[1] && c == rv[2]);
                    assert(row@ =~= rv);
                    assert forall|i: int| 0 <= i < 3 implies Self::step_slot3(
                        pre,
                        *self,
                        row@,
                        i,
                    ) by {
                        assert(PartsIterator::step_slot(pre.inner, self.inner, rv, i));
                        assert(row@[i] == rv[i]);
                    }
                    if forall|i: int| 0 <= i < 3 ==> pre.pending_at(i).len() > 0 {
                        assert forall|i: int| 0 <= i < pre.inner.n() implies pre.inner.pending_at(
                            i,
                        ).len() > 0 by {
                            assert(pre.pending_at(i).len() > 0);
                        }
                        assert(pre.inner.all_pending_nonempty());
                    }
                    if pre.remaining().len() == 0 && (forall|i: int|
                        0 <= i < 3 ==> pre.pending_at(i).len() == 0) {
                        assert forall|i: int| 0 <= i < pre.inner.n() implies pre.inner.pending_at(
                            i,
                        ).len() == 0 by {
                            assert(pre.pending_at(i).len() == 0);
                        }
                        assert(false);
                    }
                }
                Option::Some(row)
            },
            Option::None => {
                proof {
                    assert forall|i: int| 0 <= i < 3 implies pre.pending_at(i).len() == 0 by {
                        assert(pre.inner.pending_at(i).len() == 0);
                    }
                }
                Option::None
            },
        }
    }
}

/// Streams a whole source through a three-way partitioner and collects every
/// row; the same guarantees as for the general partitioner, with three-slot
/// rows.
pub fn partition_stream_ttv<T>(source: Vec<T>, splits: [i64; 3]) -> (r: Result<
    Vec<[Option<T>; 3]>,
    SplitError,
>)
    requires
        sum_weights(splits@) <= i64::MAX,
    ensures
        match r {
            Ok(rows) => {
                &&& valid_weights(splits@)
                &&& exists|assign: Seq<int>| stream_assignment_ttv(source@, splits@, rows@, assign)
                &&& columns_multiset_ttv(rows@, 3) == source@.to_multiset()
                &&& forall|i: int|
                    0 <= i < 3 && splits@[i] == 0 ==> column_ttv(rows@, i).len() == 0
                &&& (source@.len() == 0 ==> rows@.len() == 0)
            },
            Err(e) => e == SplitError::InvalidWeights && !valid_weights(splits@),
        },
{
    let ghost src = source@;
    let mut it = match TTVIterator::new(source, splits) {
        Ok(it) => it,
        Err(e) => {
            return Err(e);
        },
    };
    let mut rows: Vec<[Option<T>; 3]> = Vec::new();
    let mut done: bool = false;
    while !done
        invariant
            it.wf(),
            it.weights() == splits@,
            valid_weights(splits@),
            it.consumed_seq() + it.remaining() == src,
            forall|i: int| 0 <= i < 3 ==> column_ttv(rows@, i) == it.emitted_at(i),
            src.len() == 0 ==> rows@.len() == 0,
            done ==> (it.remaining().len() == 0 && forall|i: int|
                0 <= i < 3 ==> it.pending_at(i).len() == 0),
        decreases it.remaining().len(), it.total_pending(), (if done {
            0int
        } else {
            1int
        }),
    {
        let ghost pre_it = it;
        let ghost pre_rows = rows@;
        let step = it.next();
        match step {
            Option::Some(row) => {
                rows.push(row);
                proof {
                    assert(rows@.drop_last() =~= pre_rows);
                    assert(TTVIterator::step_rel3(pre_it, it, rows@.last()@));
                    assert forall|i: int| 0 <= i < 3 implies column_ttv(rows@, i)
                        == it.emitted_at(i) by {
                        assert(column_ttv(rows@, i) == column_ttv(pre_rows, i) + opt_seq(
                            rows@.last()@[i],
                        ));
                        assert(TTVIterator::step_slot3(pre_it, it, rows@.last()@, i));
                    }
                    assert(it.consumed_seq() + it.remaining() =~= pre_it.consumed_seq()
                        + pre_it.remaining());
                    lemma_ttv_pending_nonneg(it);
                    if src.len() == 0 {
                        assert(pre_it.consumed_seq().len() == 0);
                        lemma_ttv_empty_consumed_pending(pre_it);
                        assert(false);
                    }
                }
            },
            Option::None => {
                done = true;
                proof {
                    lemma_ttv_pending_eq(pre_it, it);
                    lemma_ttv_pending_nonneg(it);
                }
            },
        }
    }
    proof {
        let ghost assign = it.assigned_seq();
        assert(it.consumed_seq() =~= src);
        assert forall|i: int| 0 <= i < 3 implies column_ttv(rows@, i) == assigned_to(
            src,
            assign,
            i,
        ) by {
            lemma_ttv_emitted_assigned(it, i);
        }
        crate::stream::lemma_wf_assigned_entries(it.inner);
        assert(assign.len() == src.len());
        assert forall|k: int| 0 <= k < assign.len() implies 0 <= #[trigger] assign[k] < 3
            && splits@[assign[k]] > 0 by {
            assert(0 <= it.inner.assigned_seq()[k] < it.inner.n());
            assert(it.inner.weights()[it.inner.assigned_seq()[k]] > 0);
        }
        assert(stream_assignment_ttv(src, splits@, rows@, assign));
        assert(exists|a: Seq<int>| stream_assignment_ttv(src, splits@, rows@, a));
        lemma_columns_multiset_pointwise_ttv(rows@, src, assign, 3);
        lemma_partition_preserves_multiset(src, assign, 3);
        assert forall|i: int| 0 <= i < 3 && splits@[i] == 0 implies column_ttv(rows@, i).len()
            == 0 by {
            assert forall|k: int| 0 <= k < assign.len() implies assign[k] != i by {
                assert(splits@[assign[k]] > 0);
            }
            lemma_assigned_to_absent(src, assign, i);
        }
    }
    Ok(rows)
}

proof fn lemma_ttv_pending_eq<T>(it1: TTVIterator<T>, it2: TTVIterator<T>)
    requires
        it1.wf(),
        it2.wf(),
        forall|i: int| 0 <= i < 3 ==> it1.pending_at(i) == it2.pending_at(i),
    ensures
        it1.total_pending() == it2.total_pending(),
{
    assert forall|i: int| 0 <= i < it1.inner.n() implies it1.inner.pending_at(i)
        == it2.inner.pending_at(i) by {
        assert(it1.pending_at(i) == it2.pending_at(i));
    }
    crate::stream::lemma_pending_total_congruent(it1.inner, it2.inner);
}

proof fn lemma_ttv_pending_nonneg<T>(it: TTVIterator<T>)
    requires
        it.wf(),
    ensures
        it.total_pending() >= 0,
{
    crate::stream::lemma_pending_total_nonneg(it.inner);
}

proof fn lemma_ttv_empty_consumed_pending<T>(it: TTVIterator<T>)
    requires
        it.wf(),
        it.consumed_seq().len() == 0,
    ensures
        forall|i: int| 0 <= i < 3 ==> it.pending_at(i).len() == 0,
{
    assert forall|i: int| 0 <= i < 3 implies it.pending_at(i).len() == 0 by {
        crate::stream::lemma_pending_from_consumed(it.inner, i);
    }
}

proof fn lemma_ttv_emitted_assigned<T>(it: TTVIterator<T>, i: int)
    requires
        it.wf(),
        0 <= i < 3,
        it.pending_at(i).len() == 0,
    ensures
        it.emitted_at(i) == assigned_to(it.consumed_seq(), it.assigned_seq(), i),
{
    crate::stream::lemma_emitted_assigned(it.inner, i);
}

} // verus!
