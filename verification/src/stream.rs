//! Streaming partitioning: elements are pulled from a source of unknown
//! length, each is routed to one partition by weighted random sampling, and
//! output is emitted in rows, one optional slot per partition.
//!
//! When an element lands in a partition whose slot of the current row is
//! already taken, it waits in that partition's pending buffer and is emitted,
//! in arrival order, in a later row.
use vstd::prelude::*;
use vstd::multiset::Multiset;

use crate::SplitError;
use crate::sampling::WeightedSelector;
use crate::sum_weights;
use crate::valid_weights;

verus! {

/// An optional value as a sequence of zero or one elements.
pub open spec fn opt_seq<T>(o: Option<T>) -> Seq<T> {
    match o {
        Option::None => Seq::empty(),
        Option::Some(x) => seq![x],
    }
}

/// A sequence without its first element; the empty sequence stays empty.
pub open spec fn seq_rest<T>(s: Seq<T>) -> Seq<T> {
    if s.len() == 0 {
        s
    } else {
        s.skip(1)
    }
}

/// The elements of `elems` whose entry in `assign` is `i`, in arrival order.
pub open spec fn assigned_to<T>(elems: Seq<T>, assign: Seq<int>, i: int) -> Seq<T>
    decreases elems.len(),
{
    if elems.len() == 0 {
        Seq::empty()
    } else if assign[elems.len() - 1] == i {
        assigned_to(elems.drop_last(), assign.take(elems.len() - 1), i).push(elems.last())
    } else {
        assigned_to(elems.drop_last(), assign.take(elems.len() - 1), i)
    }
}

/// The elements that slot `i` carries over a sequence of rows, in row order.
pub open spec fn column<T>(rows: Seq<Vec<Option<T>>>, i: int) -> Seq<T>
    decreases rows.len(),
{
    if rows.len() == 0 {
        Seq::empty()
    } else {
        column(rows.drop_last(), i) + opt_seq(rows.last()@[i])
    }
}

/// The multiset of all elements routed to the first `k` partitions.
pub open spec fn parts_multiset<T>(elems: Seq<T>, assign: Seq<int>, k: int) -> Multiset<T>
    decreases k,
{
    if k <= 0 {
        Multiset::empty()
    } else {
        parts_multiset(elems, assign, k - 1).add(assigned_to(elems, assign, k - 1).to_multiset())
    }
}

/// The multiset of all elements carried by the first `k` columns of `rows`.
pub open spec fn columns_multiset<T>(rows: Seq<Vec<Option<T>>>, k: int) -> Multiset<T>
    decreases k,
{
    if k <= 0 {
        Multiset::empty()
    } else {
        columns_multiset(rows, k - 1).add(column(rows, k - 1).to_multiset())
    }
}

/// Total number of elements waiting in the first `k` buffers.
pub open spec fn queues_total<T>(qs: Seq<Vec<T>>, k: int) -> int
    decreases k,
{
    if k <= 0 {
        0
    } else {
        queues_total(qs, k - 1) + qs[k - 1]@.len()
    }
}

/// Appending one element routed to partition `j` extends exactly partition
/// `j`'s sequence, at its end.
pub proof fn lemma_assigned_to_push<T>(elems: Seq<T>, assign: Seq<int>, x: T, j: int, i: int)
    requires
        assign.len() == elems.len(),
    ensures
        assigned_to(elems.push(x), assign.push(j), i) == if j == i {
            assigned_to(elems, assign, i).push(x)
        } else {
            assigned_to(elems, assign, i)
        },
{
    let e2 = elems.push(x);
    let a2 = assign.push(j);
    assert(e2.len() == elems.len() + 1);
    assert(a2[e2.len() - 1] == j);
    assert(e2.drop_last() =~= elems);
    assert(a2.take(e2.len() - 1) =~= assign);
    assert(e2.last() == x);
}

/// Routing distributes over concatenation of the element stream.
pub proof fn lemma_assigned_to_concat<T>(
    e1: Seq<T>,
    a1: Seq<int>,
    e2: Seq<T>,
    a2: Seq<int>,
    i: int,
)
    requires
        a1.len() == e1.len(),
        a2.len() == e2.len(),
    ensures
        assigned_to(e1 + e2, a1 + a2, i) == assigned_to(e1, a1, i) + assigned_to(e2, a2, i),
    decreases e2.len(),
{
    if e2.len() == 0 {
        assert(e1 + e2 =~= e1);
        assert(a1 + a2 =~= a1);
        assert(assigned_to(e2, a2, i) =~= Seq::<T>::empty());
        assert(assigned_to(e1, a1, i) + assigned_to(e2, a2, i) =~= assigned_to(e1, a1, i));
    } else {
        let x = e2.last();
        let j = a2.last();
        let e2p = e2.drop_last();
        let a2p = a2.drop_last();
        assert(a2.take(e2.len() - 1) =~= a2p);
        lemma_assigned_to_concat(e1, a1, e2p, a2p, i);
        assert(e1 + e2 =~= (e1 + e2p).push(x));
        assert(a1 + a2 =~= (a1 + a2p).push(j));
        lemma_assigned_to_push(e1 + e2p, a1 + a2p, x, j, i);
        lemma_assigned_to_push(e2p, a2p, x, j, i);
        assert(assigned_to(e2, a2, i) == assigned_to(e2p.push(x), a2p.push(j), i)) by {
            assert(e2p.push(x) =~= e2);
            assert(a2p.push(j) =~= a2);
        }
        if j == i {
            assert(assigned_to(e1, a1, i) + assigned_to(e2p, a2p, i).push(x) =~= (assigned_to(
                e1,
                a1,
                i,
            ) + assigned_to(e2p, a2p, i)).push(x));
        }
    }
}

/// A partition index that no entry of `assign` names receives nothing.
pub proof fn lemma_assigned_to_absent<T>(elems: Seq<T>, assign: Seq<int>, i: int)
    requires
        assign.len() == elems.len(),
        forall|k: int| 0 <= k < assign.len() ==> assign[k] != i,
    ensures
        assigned_to(elems, assign, i).len() == 0,
    decreases elems.len(),
{
    if elems.len() > 0 {
        assert(assign.take(elems.len() - 1).len() == elems.len() - 1);
        lemma_assigned_to_absent(elems.drop_last(), assign.take(elems.len() - 1), i);
    }
}

proof fn lemma_parts_multiset_empty<T>(assign: Seq<int>, k: int)
    requires
        assign.len() == 0,
    ensures
        parts_multiset(Seq::<T>::empty(), assign, k) =~= Multiset::<T>::empty(),
    decreases k,
{
    broadcast use vstd::multiset::group_multiset_axioms;

    if k > 0 {
        lemma_parts_multiset_empty::<T>(assign, k - 1);
        broadcast use vstd::seq_lib::group_to_multiset_ensures;

        assert(assigned_to(Seq::<T>::empty(), assign, k - 1) =~= Seq::<T>::empty());
        vstd::seq_lib::to_multiset_len(Seq::<T>::empty());
    }
}

proof fn lemma_parts_multiset_step<T>(elems: Seq<T>, assign: Seq<int>, k: int)
    requires
        assign.len() == elems.len(),
        elems.len() > 0,
    ensures
        parts_multiset(elems, assign, k) =~= if 0 <= assign.last() < k {
            parts_multiset(elems.drop_last(), assign.drop_last(), k).insert(elems.last())
        } else {
            parts_multiset(elems.drop_last(), assign.drop_last(), k)
        },
    decreases k,
{
    broadcast use vstd::multiset::group_multiset_axioms;
    broadcast use vstd::seq_lib::group_to_multiset_ensures;

    let x = elems.last();
    let j = assign.last();
    if k > 0 {
        lemma_parts_multiset_step(elems, assign, k - 1);
        lemma_assigned_to_push(elems.drop_last(), assign.drop_last(), x, j, k - 1);
        assert(assigned_to(elems, assign, k - 1) == assigned_to(
            elems.drop_last().push(x),
            assign.drop_last().push(j),
            k - 1,
        )) by {
            assert(elems.drop_last().push(x) =~= elems);
            assert(assign.drop_last().push(j) =~= assign);
        }
        if j == k - 1 {
            assert(assigned_to(elems, assign, k - 1).to_multiset() =~= assigned_to(
                elems.drop_last(),
                assign.drop_last(),
                k - 1,
            ).to_multiset().insert(x));
            assert(parts_multiset(elems, assign, k) =~= parts_multiset(
                elems.drop_last(),
                assign.drop_last(),
                k,
            ).insert(x));
        } else {
            assert(parts_multiset(elems, assign, k) =~= if 0 <= j < k {
                parts_multiset(elems.drop_last(), assign.drop_last(), k).insert(x)
            } else {
                parts_multiset(elems.drop_last(), assign.drop_last(), k)
            });
        }
    }
}

/// Law: an assignment of every element to one partition conserves the
/// elements: the routed sequences together form exactly the input multiset;
/// nothing is duplicated and nothing is lost.
pub proof fn lemma_partition_preserves_multiset<T>(elems: Seq<T>, assign: Seq<int>, n: int)
    requires
        assign.len() == elems.len(),
        forall|k: int| 0 <= k < assign.len() ==> 0 <= #[trigger] assign[k] < n,
    ensures
        parts_multiset(elems, assign, n) == elems.to_multiset(),
    decreases elems.len(),
{
    broadcast use vstd::multiset::group_multiset_axioms;
    broadcast use vstd::seq_lib::group_to_multiset_ensures;

    if elems.len() == 0 {
        lemma_parts_multiset_empty::<T>(assign, n);
        assert(elems =~= Seq::<T>::empty());
        vstd::seq_lib::to_multiset_len(elems);
        vstd::multiset::lemma_multiset_empty_len(elems.to_multiset());
        assert(elems.to_multiset() =~= Multiset::<T>::empty());
        assert(parts_multiset(elems, assign, n) =~= elems.to_multiset());
    } else {
        let x = elems.last();
        assert(assign.drop_last().len() == elems.drop_last().len());
        assert forall|k: int| 0 <= k < assign.drop_last().len() implies 0
            <= #[trigger] assign.drop_last()[k] < n by {
            assert(assign[k] == assign.drop_last()[k]);
        }
        lemma_partition_preserves_multiset(elems.drop_last(), assign.drop_last(), n);
        lemma_parts_multiset_step(elems, assign, n);
        assert(assign.last() == assign[assign.len() - 1]);
        assert(0 <= assign[assign.len() - 1] < n);
        assert(elems.drop_last().push(x) =~= elems);
        assert(elems.drop_last().push(x).to_multiset() =~= elems.drop_last().to_multiset().insert(
            x,
        ));
        assert(parts_multiset(elems, assign, n) == parts_multiset(
            elems.drop_last(),
            assign.drop_last(),
            n,
        ).insert(x));
        assert(parts_multiset(elems.drop_last(), assign.drop_last(), n).insert(x)
            == elems.drop_last().to_multiset().insert(x));
        assert(elems.to_multiset() == elems.drop_last().push(x).to_multiset());
        assert(parts_multiset(elems, assign, n) =~= elems.to_multiset());
    }
}

/// The per-column multisets agree with the per-partition multisets when the
/// columns carry exactly the routed sequences.
pub proof fn lemma_columns_multiset_pointwise<T>(
    rows: Seq<Vec<Option<T>>>,
    elems: Seq<T>,
    assign: Seq<int>,
    k: int,
)
    requires
        forall|i: int| 0 <= i < k ==> column(rows, i) == assigned_to(elems, assign, i),
    ensures
        columns_multiset(rows, k) == parts_multiset(elems, assign, k),
    decreases k,
{
    if k > 0 {
        lemma_columns_multiset_pointwise(rows, elems, assign, k - 1);
    }
}

proof fn lemma_queues_total_shrink<T>(qs1: Seq<Vec<T>>, qs2: Seq<Vec<T>>, k: int)
    requires
        forall|j: int| 0 <= j < k ==> (#[trigger] qs2[j])@.len() <= qs1[j]@.len(),
    ensures
        queues_total(qs2, k) <= queues_total(qs1, k),
        (exists|j: int| 0 <= j < k && (#[trigger] qs2[j])@.len() < qs1[j]@.len()) ==> queues_total(
            qs2,
            k,
        ) < queues_total(qs1, k),
    decreases k,
{
    if k > 0 {
        lemma_queues_total_shrink(qs1, qs2, k - 1);
        if exists|j: int| 0 <= j < k && (#[trigger] qs2[j])@.len() < qs1[j]@.len() {
            let j = choose|j: int| 0 <= j < k && (#[trigger] qs2[j])@.len() < qs1[j]@.len();
            if j < k - 1 {
                assert(queues_total(qs2, k - 1) < queues_total(qs1, k - 1));
            }
        }
    }
}

/// Routes a stream of elements to partitions, one weighted draw per element,
/// and emits synchronized rows with per-partition FIFO buffering.
pub struct PartsIterator<T> {
    source: Vec<T>,
    queues: Vec<Vec<T>>,
    selector: WeightedSelector,
    consumed: Ghost<Seq<T>>,
    assigned: Ghost<Seq<int>>,
    emitted: Ghost<Seq<Seq<T>>>,
}

impl<T> PartsIterator<T> {
    /// The weight vector this partitioner routes by.
    pub closed spec fn weights(self) -> Seq<i64> {
        self.selector.weights_view()
    }

    /// Number of partitions.
    pub open spec fn n(self) -> int {
        self.weights().len() as int
    }

    /// Elements not yet drawn from the source.
    pub closed spec fn remaining(self) -> Seq<T> {
        self.source@
    }

    /// Elements waiting in partition `i`'s pending buffer, in arrival order.
    pub closed spec fn pending_at(self, i: int) -> Seq<T> {
        self.queues@[i]@
    }

    /// Elements already emitted in slot `i`, in emission order.
    pub closed spec fn emitted_at(self, i: int) -> Seq<T> {
        self.emitted@[i]
    }

    /// Elements drawn from the source so far, in arrival order.
    pub closed spec fn consumed_seq(self) -> Seq<T> {
        self.consumed@
    }

    /// The partition each consumed element was routed to.
    pub closed spec fn assigned_seq(self) -> Seq<int> {
        self.assigned@
    }

    /// Total number of buffered elements.
    pub closed spec fn total_pending(self) -> int {
        queues_total(self.queues@, self.n())
    }

    /// Every pending buffer currently holds at least one element.
    pub open spec fn all_pending_nonempty(self) -> bool {
        forall|i: int| 0 <= i < self.n() ==> self.pending_at(i).len() > 0
    }

    /// Structural invariant: the weights are valid, every consumed element is
    /// routed to one positive-weight partition, and what was emitted in slot
    /// `i` followed by what waits in buffer `i` is exactly what was routed to
    /// partition `i`, in arrival order.
    pub closed spec fn wf(self) -> bool {
        &&& self.selector.wf()
        &&& valid_weights(self.weights())
        &&& self.queues@.len() == self.n()
        &&& self.emitted@.len() == self.n()
        &&& self.assigned@.len() == self.consumed@.len()
        &&& forall|k: int|
            0 <= k < self.assigned@.len() ==> 0 <= #[trigger] self.assigned@[k] < self.n()
                && self.weights()[self.assigned@[k]] > 0
        &&& forall|i: int|
            0 <= i < self.n() ==> self.emitted_at(i) + self.pending_at(i) == assigned_to(
                self.consumed@,
                self.assigned@,
                i,
            )
    }

    /// The per-partition part of `step_rel`: slot `i` of the row carries the
    /// head of what partition `i` is owed (its buffered elements, then the
    /// newly routed ones), the rest stays buffered, in order.
    pub open spec fn step_slot(pre: Self, post: Self, row: Seq<Option<T>>, i: int) -> bool {
        let base = pre.consumed_seq().len() as int;
        let fresh = assigned_to(
            post.consumed_seq().skip(base),
            post.assigned_seq().skip(base),
            i,
        );
        let owed = pre.pending_at(i) + fresh;
        &&& row[i] == if owed.len() == 0 {
            Option::<T>::None
        } else {
            Option::Some(owed[0])
        }
        &&& post.pending_at(i) == seq_rest(owed)
        &&& post.emitted_at(i) == pre.emitted_at(i) + opt_seq(row[i])
    }

    /// One step of the partitioner: how a produced row and the state after
    /// it relate to the state before. When the buffers alone filled the row
    /// nothing is drawn; otherwise one element per partition slot is drawn,
    /// fewer only if the source runs dry.
    pub open spec fn step_rel(pre: Self, post: Self, row: Seq<Option<T>>) -> bool {
        let n = pre.n();
        let pulled = post.consumed_seq().len() - pre.consumed_seq().len();
        &&& post.weights() == pre.weights()
        &&& row.len() == n
        &&& (pre.all_pending_nonempty() ==> pulled == 0)
        &&& (!pre.all_pending_nonempty() ==> pulled == if pre.remaining().len() < n {
            pre.remaining().len() as int
        } else {
            n
        })
        &&& post.consumed_seq() == pre.consumed_seq() + pre.remaining().take(pulled)
        &&& post.remaining() == pre.remaining().skip(pulled)
        &&& post.assigned_seq().len() == post.consumed_seq().len()
        &&& post.assigned_seq().take(pre.assigned_seq().len() as int) == pre.assigned_seq()
        &&& forall|k: int|
            pre.assigned_seq().len() <= k < post.assigned_seq().len() ==> 0
                <= #[trigger] post.assigned_seq()[k] < n && pre.weights()[post.assigned_seq()[k]]
                > 0
        &&& forall|i: int| 0 <= i < n ==> Self::step_slot(pre, post, row, i)
    }

    /// Builds a partitioner over a source, rejecting empty, negative or
    /// all-zero weights.
    pub fn new(source: Vec<T>, splits: &Vec<i64>) -> (r: Result<PartsIterator<T>, SplitError>)
        requires
            sum_weights(splits@) <= i64::MAX,
        ensures
            match r {
                Ok(it) => {
                    &&& valid_weights(splits@)
                    &&& it.wf()
                    &&& it.weights() == splits@
                    &&& it.remaining() == source@
                    &&& it.consumed_seq() == Seq::<T>::empty()
                    &&& it.assigned_seq() == Seq::<int>::empty()
                    &&& forall|i: int|
                        0 <= i < it.n() ==> it.pending_at(i).len() == 0 && it.emitted_at(i).len()
                            == 0
                },
                Err(e) => e == SplitError::InvalidWeights && !valid_weights(splits@),
            },
    {
        let mut ws: Vec<i64> = Vec::new();
        let mut i: usize = 0;
        while i < splits.len()
            invariant
                i <= splits@.len(),
                ws@ == splits@.take(i as int),
            decreases splits@.len() - i,
        {
            ws.push(splits[i]);
            proof {
                assert(ws@ =~= splits@.take(i as int + 1));
            }
            i = i + 1;
        }
        proof {
            assert(ws@ =~= splits@);
        }
        let selector = match WeightedSelector::new(ws) {
            Ok(sel) => sel,
            Err(e) => {
                return Err(e);
            },
        };
        let n = selector.len();
        let mut queues: Vec<Vec<T>> = Vec::new();
        let mut j: usize = 0;
        while j < n
            invariant
                j <= n,
                queues@.len() == j,
                forall|m: int| 0 <= m < j ==> (#[trigger] queues@[m])@.len() == 0,
            decreases n - j,
        {
            queues.push(Vec::new());
            j = j + 1;
        }
        let it = PartsIterator {
            source,
            queues,
            selector,
            consumed: Ghost(Seq::empty()),
            assigned: Ghost(Seq::empty()),
            emitted: Ghost(Seq::new(splits@.len() as nat, |i: int| Seq::empty())),
        };
        proof {
            assert forall|i: int| 0 <= i < it.n() implies it.emitted_at(i) + it.pending_at(i)
                == assigned_to(it.consumed@, it.assigned@, i) by {
                assert(it.emitted_at(i) + it.pending_at(i) =~= Seq::<T>::empty());
                assert(assigned_to(it.consumed@, it.assigned@, i) =~= Seq::<T>::empty());
            }
        }
        Ok(it)
    }

    /// Appends one element to the not-yet-consumed part of the source.
    pub fn push_source(&mut self, x: T)
        requires
            old(self).wf(),
        ensures
            final(self).wf(),
            final(self).weights() == old(self).weights(),
            final(self).remaining() == old(self).remaining().push(x),
            final(self).consumed_seq() == old(self).consumed_seq(),
            final(self).assigned_seq() == old(self).assigned_seq(),
            forall|i: int|
                0 <= i < old(self).n() ==> final(self).pending_at(i) == old(self).pending_at(i)
                    && final(self).emitted_at(i) == old(self).emitted_at(i),
    {
        self.source.push(x);
    }

    /// Number of source elements not yet consumed.
    pub fn buffered_len(&self) -> (len: usize)
        ensures
            len == self.remaining().len(),
    {
        self.source.len()
    }

    /// Produces the next row, or signals exhaustion.
    ///
    /// First each non-empty pending buffer yields its front element into its
    /// slot; if that filled every slot the row is emitted at once. Otherwise
    /// up to one element per partition is drawn from the source; each lands
    /// in its sampled slot if that slot is free, else in that partition's
    /// buffer. An all-empty row with all buffers empty signals the end.
    pub fn next(&mut self) -> (r: Option<Vec<Option<T>>>)
        requires
            old(self).wf(),
        ensures
            final(self).wf(),
            final(self).weights() == old(self).weights(),
            (r is None) <==> (old(self).remaining().len() == 0 && forall|i: int|
                0 <= i < old(self).n() ==> old(self).pending_at(i).len() == 0),
            match r {
                Option::None => {
                    &&& final(self).remaining() == old(self).remaining()
                    &&& final(self).consumed_seq() == old(self).consumed_seq()
                    &&& final(self).assigned_seq() == old(self).assigned_seq()
                    &&& forall|i: int|
                        0 <= i < old(self).n() ==> final(self).pending_at(i) == old(self).pending_at(i)
                            && final(self).emitted_at(i) == old(self).emitted_at(i)
                },
                Option::Some(row) => {
                    &&& Self::step_rel(*old(self), *final(self), row@)
                    &&& (final(self).remaining().len() < old(self).remaining().len()
                        || (final(self).remaining() == old(self).remaining()
                            && final(self).total_pending() < old(self).total_pending()))
                },
            },
    {
        let ghost pre = *self;
        let n = self.queues.len();
        let mut row: Vec<Option<T>> = Vec::new();
        let mut all_full: bool = true;
        let mut any_drained: bool = false;
        let mut i: usize = 0;
        while i < n
            invariant
                pre.wf(),
                n as int == pre.n(),
                i <= n,
                row@.len() == i,
                self.selector == pre.selector,
                self.source@ == pre.source@,
                self.consumed@ == pre.consumed@,
                self.assigned@ == pre.assigned@,
                self.queues@.len() == n,
                self.emitted@.len() == n,
                forall|j: int| i <= j < n ==> (#[trigger] self.queues@[j])@ == pre.pending_at(j),
                forall|j: int| i <= j < n ==> (#[trigger] self.emitted@[j]) == pre.emitted_at(j),
                forall|j: int|
                    0 <= j < i ==> (#[trigger] row@[j]) == (if pre.pending_at(j).len() == 0 {
                        Option::<T>::None
                    } else {
                        Option::Some(pre.pending_at(j)[0])
                    }),
                forall|j: int|
                    0 <= j < i ==> (#[trigger] self.queues@[j])@ == seq_rest(pre.pending_at(j)),
                forall|j: int|
                    0 <= j < i ==> (#[trigger] self.emitted@[j]) == pre.emitted_at(j) + opt_seq(
                        row@[j],
                    ),
                all_full == (forall|j: int| 0 <= j < i ==> pre.pending_at(j).len() > 0),
                any_drained == (exists|j: int| 0 <= j < i && pre.pending_at(j).len() > 0),
            decreases n - i,
        {
            let ghost prev_queues = self.queues@;
            let mut q = self.queues.remove(i);
            if q.len() > 0 {
                let x = q.remove(0);
                row.push(Option::Some(x));
                self.emitted = Ghost(
                    self.emitted@.update(i as int, self.emitted@[i as int].push(x)),
                );
                any_drained = true;
                proof {
                    assert(pre.pending_at(i as int)[0] == x);
                    assert(q@ =~= seq_rest(pre.pending_at(i as int)));
                    assert(pre.emitted_at(i as int) + opt_seq(row@[i as int]) =~= pre.emitted_at(
                        i as int,
                    ).push(x));
                }
            } else {
                row.push(Option::None);
                all_full = false;
                proof {
                    assert(pre.emitted_at(i as int) + opt_seq(row@[i as int]) =~= pre.emitted_at(
                        i as int,
                    ));
                    assert(q@ =~= seq_rest(pre.pending_at(i as int)));
                }
            }
            self.queues.insert(i, q);
            proof {
                assert(self.queues@ =~= prev_queues.update(i as int, self.queues@[i as int]));
            }
            i = i + 1;
        }
        let ghost base = pre.consumed@.len() as int;
        proof {
            assert forall|i2: int| 0 <= i2 < n implies Self::step_slot(pre, *self, row@, i2) by {
                assert(self.consumed@.skip(base) =~= Seq::<T>::empty());
                assert(self.assigned@.skip(base) =~= Seq::<int>::empty());
                let fresh = assigned_to(self.consumed@.skip(base), self.assigned@.skip(base), i2);
                assert(fresh =~= Seq::<T>::empty());
                assert(pre.pending_at(i2) + fresh =~= pre.pending_at(i2));
            }
            assert(self.assigned@.take(base) =~= pre.assigned@);
            assert(self.consumed@.take(base) =~= pre.consumed@);
        }
        if all_full {
            proof {
                assert(pre.all_pending_nonempty());
                assert(valid_weights(pre.weights()));
                assert(pre.n() >= 1);
                assert(pre.consumed@ + pre.remaining().take(0) =~= pre.consumed@);
                assert(pre.remaining().skip(0) =~= pre.remaining());
                lemma_step_wf(pre, *self, row@);
                lemma_queues_total_shrink(pre.queues@, self.queues@, n as int);
                assert(pre.pending_at(0).len() > 0);
                assert(self.queues@[0]@.len() < pre.queues@[0]@.len());
            }
            return Option::Some(row);
        }
        let pulls = if self.source.len() < n {
            self.source.len()
        } else {
            n
        };
        let ghost gpulls = pulls as int;
        let mut k: usize = 0;
        while k < pulls
            invariant
                pre.wf(),
                n as int == pre.n(),
                base == pre.consumed@.len() as int,
                k <= pulls,
                gpulls == pulls as int,
                gpulls <= pre.remaining().len(),
                self.selector.wf(),
                self.selector.weights_view() == pre.weights(),
                self.source@ == pre.source@.skip(k as int),
                self.consumed@ == pre.consumed@ + pre.source@.take(k as int),
                self.assigned@.len() == self.consumed@.len(),
                self.assigned@.take(base) == pre.assigned@,
                forall|m: int|
                    base <= m < self.assigned@.len() ==> 0 <= #[trigger] self.assigned@[m]
                        < n as int && pre.weights()[self.assigned@[m]] > 0,
                row@.len() == n,
                self.queues@.len() == n,
                self.emitted@.len() == n,
                forall|i2: int| 0 <= i2 < n ==> Self::step_slot(pre, *self, row@, i2),
            decreases pulls - k,
        {
            let ghost top = *self;
            let ghost prev_row = row@;
            let x = self.source.remove(0);
            let idx = self.selector.sample();
            proof {
                assert(forall|i2: int|
                    0 <= i2 < n ==> Self::step_slot(pre, top, prev_row, i2));
            }
            let ghost suffix_e = self.consumed@.skip(base);
            let ghost suffix_a = self.assigned@.skip(base);
            self.consumed = Ghost(self.consumed@.push(x));
            self.assigned = Ghost(self.assigned@.push(idx as int));
            proof {
                assert(suffix_a.len() == suffix_e.len());
                assert(self.consumed@.skip(base) =~= suffix_e.push(x));
                assert(self.assigned@.skip(base) =~= suffix_a.push(idx as int));
                assert(self.assigned@.take(base) =~= pre.assigned@);
                assert(self.consumed@ =~= pre.consumed@ + pre.source@.take(k as int + 1));
                assert(self.source@ =~= pre.source@.skip(k as int + 1));
            }
            let slot_taken = row[idx].is_some();
            if slot_taken {
                let ghost prev_queues = self.queues@;
                let mut q = self.queues.remove(idx);
                q.push(x);
                self.queues.insert(idx, q);
                proof {
                    assert(self.queues@ =~= prev_queues.update(
                        idx as int,
                        self.queues@[idx as int],
                    ));
                }
            } else {
                let _ = row.remove(idx);
                row.insert(idx, Option::Some(x));
                self.emitted = Ghost(
                    self.emitted@.update(idx as int, self.emitted@[idx as int].push(x)),
                );
                proof {
                    assert(row@ =~= prev_row.update(idx as int, Option::Some(x)));
                }
            }
            proof {
                assert forall|i2: int| 0 <= i2 < n implies Self::step_slot(pre, *self, row@, i2)
                    by {
                    lemma_assigned_to_push(suffix_e, suffix_a, x, idx as int, i2);
                    let fresh0 = assigned_to(suffix_e, suffix_a, i2);
                    let owed0 = pre.pending_at(i2) + fresh0;
                    assert(Self::step_slot(pre, top, prev_row, i2));
                    if i2 == idx as int {
                        let fresh1 = fresh0.push(x);
                        let owed1 = pre.pending_at(i2) + fresh1;
                        assert(owed1 =~= owed0.push(x));
                        if slot_taken {
                            assert(prev_row[i2] is Some);
                            assert(owed0.len() > 0);
                            assert(top.queues@[i2]@ == seq_rest(owed0));
                            assert(self.queues@[i2]@ =~= owed0.skip(1).push(x));
                            assert(seq_rest(owed1) =~= owed0.skip(1).push(x));
                            assert(owed1[0] == owed0[0]);
                            assert(row@[i2] == Option::Some(owed1[0]));
                        } else {
                            assert(prev_row[i2] is None);
                            assert(owed0.len() == 0);
                            assert(owed1 =~= seq![x]);
                            assert(row@[i2] == Option::Some(x));
                            assert(self.queues@[i2]@ == seq_rest(owed0));
                            assert(seq_rest(owed0) =~= Seq::<T>::empty());
                            assert(seq_rest(owed1) =~= Seq::<T>::empty());
                            assert(self.emitted@[i2] =~= pre.emitted_at(i2) + opt_seq(
                                Option::Some(x),
                            )) by {
                                assert(top.emitted@[i2] == pre.emitted_at(i2) + opt_seq(
                                    prev_row[i2],
                                ));
                                assert(pre.emitted_at(i2) + opt_seq(prev_row[i2]) =~=
                                pre.emitted_at(i2));
                                assert(pre.emitted_at(i2) + opt_seq(Option::Some(x)) =~=
                                pre.emitted_at(i2).push(x));
                            }
                        }
                    } else {
                        assert(row@[i2] == prev_row[i2]);
                        assert(self.queues@[i2]@ == top.queues@[i2]@);
                        assert(self.emitted@[i2] == top.emitted@[i2]);
                    }
                }
            }
            k = k + 1;
        }
        proof {
            assert(self.assigned@.take(base) =~= pre.assigned@);
            assert(self.consumed@.take(base) =~= pre.consumed@);
            assert(self.consumed@ =~= pre.consumed@ + pre.remaining().take(gpulls));
            assert(self.source@ =~= pre.remaining().skip(gpulls));
            assert(!pre.all_pending_nonempty());
            lemma_step_wf(pre, *self, row@);
        }
        if pulls == 0 && !any_drained {
            proof {
                assert(pre.remaining().len() == 0);
                assert forall|i2: int| 0 <= i2 < pre.n() implies pre.pending_at(i2).len() == 0 by {
                }
                assert forall|i2: int| 0 <= i2 < pre.n() implies self.queues@[i2]@ == pre.pending_at(
                    i2,
                ) && self.emitted@[i2] == pre.emitted_at(i2) by {
                    assert(Self::step_slot(pre, *self, row@, i2));
                    let fresh = assigned_to(
                        self.consumed@.skip(base),
                        self.assigned@.skip(base),
                        i2,
                    );
                    assert(self.consumed@.skip(base) =~= Seq::<T>::empty());
                    assert(self.assigned@.skip(base) =~= Seq::<int>::empty());
                    assert(fresh =~= Seq::<T>::empty());
                    let owed = pre.pending_at(i2) + fresh;
                    assert(owed =~= pre.pending_at(i2));
                    assert(seq_rest(owed) =~= Seq::<T>::empty());
                    assert(pre.emitted_at(i2) + opt_seq(row@[i2]) =~= pre.emitted_at(i2));
                }
                assert(self.consumed@ =~= pre.consumed@);
                assert(self.assigned@ =~= pre.assigned@);
            }
            return Option::None;
        }
        proof {
            if gpulls == 0 {
                assert(pre.remaining().len() == 0);
                assert(any_drained);
                assert(self.source@ =~= pre.source@);
                let j = choose|j: int| 0 <= j < n && pre.pending_at(j).len() > 0;
                assert forall|j2: int| 0 <= j2 < n implies (#[trigger] self.queues@[j2])@.len()
                    <= pre.queues@[j2]@.len() && (pre.pending_at(j2).len() > 0
                    ==> self.queues@[j2]@.len() < pre.queues@[j2]@.len()) by {
                    assert(Self::step_slot(pre, *self, row@, j2));
                    let fresh = assigned_to(
                        self.consumed@.skip(base),
                        self.assigned@.skip(base),
                        j2,
                    );
                    assert(self.consumed@.skip(base) =~= Seq::<T>::empty());
                    assert(self.assigned@.skip(base) =~= Seq::<int>::empty());
                    assert(fresh =~= Seq::<T>::empty());
                    assert(pre.pending_at(j2) + fresh =~= pre.pending_at(j2));
                }
                assert(self.queues@[j]@.len() < pre.queues@[j]@.len());
                lemma_queues_total_shrink(pre.queues@, self.queues@, n as int);
            } else {
                assert(self.source@.len() < pre.source@.len());
            }
        }
        Option::Some(row)
    }
}

/// Spec of a complete streaming run: `assign` routes every source element to
/// one positive-weight partition, and each output column carries exactly the
/// elements routed to it, in arrival order.
pub open spec fn stream_assignment<T>(
    src: Seq<T>,
    ws: Seq<i64>,
    rows: Seq<Vec<Option<T>>>,
    assign: Seq<int>,
) -> bool {
    &&& assign.len() == src.len()
    &&& forall|k: int|
        0 <= k < assign.len() ==> 0 <= #[trigger] assign[k] < ws.len() && ws[assign[k]] > 0
    &&& forall|i: int| 0 <= i < ws.len() ==> column(rows, i) == assigned_to(src, assign, i)
}

/// Streams a whole source through a partitioner and collects every row.
///
/// Some routing of the elements to positive-weight partitions explains the
/// output exactly: each column carries its partition's elements in arrival
/// order, the rows together hold every source element exactly once, and
/// zero-weight partitions stay empty.
pub fn partition_stream<T>(source: Vec<T>, splits: &Vec<i64>) -> (r: Result<
    Vec<Vec<Option<T>>>,
    SplitError,
>)
    requires
        sum_weights(splits@) <= i64::MAX,
    ensures
        match r {
            Ok(rows) => {
                &&& valid_weights(splits@)
                &&& forall|k: int|
                    0 <= k < rows@.len() ==> (#[trigger] rows@[k])@.len() == splits@.len()
                &&& exists|assign: Seq<int>| stream_assignment(source@, splits@, rows@, assign)
                &&& columns_multiset(rows@, splits@.len() as int) == source@.to_multiset()
                &&& forall|i: int|
                    0 <= i < splits@.len() && splits@[i] == 0 ==> column(rows@, i).len() == 0
                &&& (source@.len() == 0 ==> rows@.len() == 0)
            },
            Err(e) => e == SplitError::InvalidWeights && !valid_weights(splits@),
        },
{
    let ghost src = source@;
    let mut it = match PartsIterator::new(source, splits) {
        Ok(it) => it,
        Err(e) => {
            return Err(e);
        },
    };
    let mut rows: Vec<Vec<Option<T>>> = Vec::new();
    let mut done: bool = false;
    while !done
        invariant
            it.wf(),
            it.weights() == splits@,
            valid_weights(splits@),
            it.consumed_seq() + it.remaining() == src,
            forall|k: int| 0 <= k < rows@.len() ==> (#[trigger] rows@[k])@.len() == splits@.len(),
            forall|i: int| 0 <= i < it.n() ==> column(rows@, i) == it.emitted_at(i),
            src.len() == 0 ==> rows@.len() == 0,
            done ==> (it.remaining().len() == 0 && forall|i: int|
                0 <= i < it.n() ==> it.pending_at(i).len() == 0),
        decreases it.remaining().len(), it.total_pending(), (if done {
            0int
        } else {
            1int
        }),
    {
        let ghost pre_it = it;
        let ghost pre_rows = rows@;
        let step = it.next();
        match step {
            Option::Some(row) => {
                rows.push(row);
                proof {
                    assert(rows@.drop_last() =~= pre_rows);
                    assert(PartsIterator::step_rel(pre_it, it, rows@.last()@));
                    assert forall|i: int| 0 <= i < it.n() implies column(rows@, i)
                        == it.emitted_at(i) by {
                        assert(column(rows@, i) == column(pre_rows, i) + opt_seq(
                            rows@.last()@[i],
                        ));
                        assert(PartsIterator::step_slot(pre_it, it, rows@.last()@, i));
                    }
                    assert(it.consumed_seq() + it.remaining() =~= pre_it.consumed_seq()
                        + pre_it.remaining());
                    lemma_queues_total_nonneg(it.queues@, it.n());
                    if src.len() == 0 {
                        assert(pre_it.consumed_seq().len() == 0);
                        assert forall|i: int| 0 <= i < pre_it.n() implies pre_it.pending_at(
                            i,
                        ).len() == 0 by {
                            assert(pre_it.emitted_at(i) + pre_it.pending_at(i) == assigned_to(
                                pre_it.consumed_seq(),
                                pre_it.assigned_seq(),
                                i,
                            ));
                        }
                        assert(false);
                    }
                }
            },
            Option::None => {
                done = true;
                proof {
                    lemma_queues_total_eq(pre_it, it);
                    lemma_queues_total_nonneg(it.queues@, it.n());
                }
            },
        }
    }
    proof {
        let n = splits@.len() as int;
        let ghost assign = it.assigned_seq();
        assert(it.consumed_seq() =~= src);
        assert forall|i: int| 0 <= i < n implies column(rows@, i) == assigned_to(
            src,
            assign,
            i,
        ) by {
            assert(it.emitted_at(i) + it.pending_at(i) == assigned_to(
                it.consumed_seq(),
                it.assigned_seq(),
                i,
            ));
            assert(it.pending_at(i).len() == 0);
            assert(it.emitted_at(i) + it.pending_at(i) =~= it.emitted_at(i));
        }
        assert(stream_assignment(src, splits@, rows@, assign));
        assert(exists|a: Seq<int>| stream_assignment(src, splits@, rows@, a));
        lemma_columns_multiset_pointwise(rows@, src, assign, n);
        lemma_partition_preserves_multiset(src, assign, n);
        assert forall|i: int| 0 <= i < n && splits@[i] == 0 implies column(rows@, i).len()
            == 0 by {
            assert forall|k: int| 0 <= k < assign.len() implies assign[k] != i by {
                assert(splits@[assign[k]] > 0);
            }
            lemma_assigned_to_absent(src, assign, i);
        }
    }
    Ok(rows)
}

/// Two partitioner states whose buffers hold the same elements pointwise
/// have the same total number of buffered elements.
proof fn lemma_queues_total_eq<T>(it1: PartsIterator<T>, it2: PartsIterator<T>)
    requires
        it1.wf(),
        it2.wf(),
        it1.n() == it2.n(),
        forall|i: int| 0 <= i < it1.n() ==> it1.pending_at(i) == it2.pending_at(i),
    ensures
        it1.total_pending() == it2.total_pending(),
{
    assert forall|j: int| 0 <= j < it1.n() implies (#[trigger] it1.queues@[j])@
        == it2.queues@[j]@ by {
        assert(it1.pending_at(j) == it2.pending_at(j));
    }
    lemma_queues_total_view(it1.queues@, it2.queues@, it1.n());
}

/// A well-formed partitioner routes every consumed element to one in-range,
/// positive-weight partition.
pub(crate) proof fn lemma_wf_assigned_entries<T>(it: PartsIterator<T>)
    requires
        it.wf(),
    ensures
        it.assigned_seq().len() == it.consumed_seq().len(),
        forall|k: int|
            0 <= k < it.assigned_seq().len() ==> 0 <= #[trigger] it.assigned_seq()[k] < it.n()
                && it.weights()[it.assigned_seq()[k]] > 0,
{
}

/// A well-formed partitioner has a non-negative number of buffered elements.
pub(crate) proof fn lemma_pending_total_nonneg<T>(it: PartsIterator<T>)
    requires
        it.wf(),
    ensures
        it.total_pending() >= 0,
{
    lemma_queues_total_nonneg(it.queues@, it.n());
}

/// Two partitioner states whose buffers agree pointwise have the same total
/// number of buffered elements.
pub(crate) proof fn lemma_pending_total_congruent<T>(it1: PartsIterator<T>, it2: PartsIterator<T>)
    requires
        it1.wf(),
        it2.wf(),
        it1.n() == it2.n(),
        forall|i: int| 0 <= i < it1.n() ==> it1.pending_at(i) == it2.pending_at(i),
    ensures
        it1.total_pending() == it2.total_pending(),
{
    lemma_queues_total_eq(it1, it2);
}

/// Before anything was consumed, every pending buffer is empty.
pub(crate) proof fn lemma_pending_from_consumed<T>(it: PartsIterator<T>, i: int)
    requires
        it.wf(),
        it.consumed_seq().len() == 0,
        0 <= i < it.n(),
    ensures
        it.pending_at(i).len() == 0,
{
    assert(it.emitted_at(i) + it.pending_at(i) == assigned_to(it.consumed@, it.assigned@, i));
}

/// Once a partition's buffer is drained, its emitted column is exactly what
/// was routed to it.
pub(crate) proof fn lemma_emitted_assigned<T>(it: PartsIterator<T>, i: int)
    requires
        it.wf(),
        0 <= i < it.n(),
        it.pending_at(i).len() == 0,
    ensures
        it.emitted_at(i) == assigned_to(it.consumed_seq(), it.assigned_seq(), i),
{
    assert(it.emitted_at(i) + it.pending_at(i) == assigned_to(it.consumed@, it.assigned@, i));
    assert(it.emitted_at(i) + it.pending_at(i) =~= it.emitted_at(i));
}

proof fn lemma_queues_total_nonneg<T>(qs: Seq<Vec<T>>, k: int)
    ensures
        queues_total(qs, k) >= 0,
    decreases k,
{
    if k > 0 {
        lemma_queues_total_nonneg(qs, k - 1);
    }
}

proof fn lemma_queues_total_view<T>(qs1: Seq<Vec<T>>, qs2: Seq<Vec<T>>, k: int)
    requires
        forall|j: int| 0 <= j < k ==> (#[trigger] qs1[j])@ == qs2[j]@,
    ensures
        queues_total(qs1, k) == queues_total(qs2, k),
    decreases k,
{
    if k > 0 {
        lemma_queues_total_view(qs1, qs2, k - 1);
    }
}

/// A post-state satisfying the step relation against a well-formed pre-state
/// is well-formed itself.
proof fn lemma_step_wf<T>(pre: PartsIterator<T>, post: PartsIterator<T>, row: Seq<Option<T>>)
    requires
        pre.wf(),
        post.selector.wf(),
        post.selector.weights_view() == pre.weights(),
        post.queues@.len() == pre.n(),
        post.emitted@.len() == pre.n(),
        post.assigned@.len() == post.consumed@.len(),
        post.assigned@.take(pre.assigned@.len() as int) == pre.assigned@,
        post.consumed@.len() >= pre.consumed@.len(),
        post.consumed@.take(pre.consumed@.len() as int) == pre.consumed@,
        forall|m: int|
            pre.assigned@.len() <= m < post.assigned@.len() ==> 0 <= #[trigger] post.assigned@[m]
                < pre.n() && pre.weights()[post.assigned@[m]] > 0,
        forall|i: int| 0 <= i < pre.n() ==> PartsIterator::step_slot(pre, post, row, i),
    ensures
        post.wf(),
{
    let base = pre.consumed@.len() as int;
    let e1 = pre.consumed@;
    let a1 = pre.assigned@;
    let e2 = post.consumed@.skip(base);
    let a2 = post.assigned@.skip(base);
    assert(e1 + e2 =~= post.consumed@);
    assert(a1 + a2 =~= post.assigned@);
    assert forall|i: int| 0 <= i < post.n() implies post.emitted_at(i) + post.pending_at(i)
        == assigned_to(post.consumed@, post.assigned@, i) by {
        lemma_assigned_to_concat(e1, a1, e2, a2, i);
        assert(PartsIterator::step_slot(pre, post, row, i));
        let fresh = assigned_to(e2, a2, i);
        let owed = pre.pending_at(i) + fresh;
        assert(post.emitted_at(i) + post.pending_at(i) =~= pre.emitted_at(i) + (opt_seq(row[i])
            + seq_rest(owed)));
        if owed.len() == 0 {
            assert(opt_seq(row[i]) + seq_rest(owed) =~= owed);
        } else {
            assert(opt_seq(row[i]) + seq_rest(owed) =~= owed);
        }
        assert(pre.emitted_at(i) + owed =~= (pre.emitted_at(i) + pre.pending_at(i)) + fresh);
        assert(pre.emitted_at(i) + pre.pending_at(i) == assigned_to(e1, a1, i));
    }
    assert forall|m: int| 0 <= m < post.assigned@.len() implies 0 <= #[trigger] post.assigned@[m]
        < post.n() && post.weights()[post.assigned@[m]] > 0 by {
        if m < base {
            assert(post.assigned@[m] == pre.assigned@[m]);
        }
    }
}

} // verus!
