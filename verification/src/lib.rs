//! Weighted partitioning of collections and streams.
//!
//! A finite collection can be split in one shot (shuffle, then slice by
//! cumulative weight), or a sequence can be consumed as a stream, each element
//! being routed to one partition by weighted random sampling while output
//! stays synchronized in rows, one slot per partition.
//!
//! Weights are relative non-negative integers; they need not sum to any
//! particular total, the split is proportional to their magnitudes.
use vstd::prelude::*;

pub mod batch;
pub mod sampling;
pub mod stream;
pub mod stream_ttv;
pub use batch::split_parts;
pub use batch::train_test_split;
pub use batch::ttv_split;
pub use sampling::WeightedSelector;
pub use stream::PartsIterator;
pub use stream::partition_stream;
pub use stream_ttv::TTVIterator;
pub use stream_ttv::partition_stream_ttv;

verus! {

/// Error raised when a weight vector cannot describe a split: it is empty,
/// holds a negative weight, or holds only zeros.
#[derive(Clone, Copy, Debug, PartialEq, Eq, Structural)]
pub enum SplitError {
    InvalidWeights,
}

/// Sum of the first `k` weights as a mathematical integer.
pub open spec fn sum_prefix(ws: Seq<i64>, k: int) -> int
    decreases k,
{
    if k <= 0 {
        0
    } else {
        sum_prefix(ws, k - 1) + ws[k - 1]
    }
}

/// Sum of a weight vector as a mathematical integer.
pub open spec fn sum_weights(ws: Seq<i64>) -> int {
    sum_prefix(ws, ws.len() as int)
}

/// A weight vector is valid when it is non-empty, has no negative entry, and
/// has at least one positive entry.
pub open spec fn valid_weights(ws: Seq<i64>) -> bool {
    &&& ws.len() > 0
    &&& forall|i: int| 0 <= i < ws.len() ==> ws[i] >= 0
    &&& exists|i: int| 0 <= i < ws.len() && ws[i] > 0
}

/// With no negative weight, every prefix sum lies between zero and the
/// total.
pub proof fn lemma_sum_prefix_bounds(ws: Seq<i64>, k: int)
    requires
        0 <= k <= ws.len(),
        forall|i: int| 0 <= i < ws.len() ==> ws[i] >= 0,
    ensures
        0 <= sum_prefix(ws, k) <= sum_weights(ws),
    decreases ws.len() - k,
{
    if k < ws.len() {
        lemma_sum_prefix_bounds(ws, k + 1);
    }
    lemma_sum_prefix_nonneg(ws, k);
}

proof fn lemma_sum_prefix_nonneg(ws: Seq<i64>, k: int)
    requires
        0 <= k <= ws.len(),
        forall|i: int| 0 <= i < ws.len() ==> ws[i] >= 0,
    ensures
        sum_prefix(ws, k) >= 0,
    decreases k,
{
    if k > 0 {
        lemma_sum_prefix_nonneg(ws, k - 1);
    }
}

/// A valid weight vector has a positive total.
pub proof fn lemma_sum_weights_positive(ws: Seq<i64>)
    requires
        valid_weights(ws),
    ensures
        sum_weights(ws) > 0,
{
    let i = choose|i: int| 0 <= i < ws.len() && ws[i] > 0;
    lemma_sum_prefix_gains(ws, i);
}

proof fn lemma_sum_prefix_gains(ws: Seq<i64>, i: int)
    requires
        0 <= i < ws.len(),
        ws[i] > 0,
        forall|j: int| 0 <= j < ws.len() ==> ws[j] >= 0,
    ensures
        sum_weights(ws) > 0,
{
    lemma_sum_prefix_step(ws, i + 1, ws.len() as int);
    lemma_sum_prefix_nonneg(ws, i);
}

proof fn lemma_sum_prefix_step(ws: Seq<i64>, k: int, m: int)
    requires
        0 <= k <= m <= ws.len(),
        forall|j: int| 0 <= j < ws.len() ==> ws[j] >= 0,
    ensures
        sum_prefix(ws, m) >= sum_prefix(ws, k),
    decreases m - k,
{
    if k < m {
        lemma_sum_prefix_step(ws, k, m - 1);
    }
}

/// Decides whether a weight vector is valid: non-empty, no negative entry,
/// at least one positive entry.
pub fn check_weights(ws: &Vec<i64>) -> (ok: bool)
    ensures
        ok == valid_weights(ws@),
{
    if ws.len() == 0 {
        return false;
    }
    let mut i: usize = 0;
    let mut any_pos: bool = false;
    while i < ws.len()
        invariant
            i <= ws@.len(),
            forall|j: int| 0 <= j < i ==> ws@[j] >= 0,
            any_pos == exists|j: int| 0 <= j < i && ws@[j] > 0,
        decreases ws@.len() - i,
    {
        if ws[i] < 0 {
            return false;
        }
        if ws[i] > 0 {
            any_pos = true;
        }
        i = i + 1;
    }
    any_pos
}

/// Decides whether the sum of a weight vector fits in an `i64`, the machine
/// bound under which a sampling distribution can be built from it.
pub fn weights_sum_fits(ws: &Vec<i64>) -> (ok: bool)
    ensures
        ok == (sum_weights(ws@) <= i64::MAX),
{
    let mut i: usize = 0;
    let mut total: i128 = 0;
    while i < ws.len()
        invariant
            i <= ws@.len(),
            total == sum_prefix(ws@, i as int),
            -0x8000_0000_0000_0000i128 * (i as i128) <= total,
            total <= 0x7fff_ffff_ffff_ffffi128 * (i as i128),
        decreases ws@.len() - i,
    {
        proof {
            lemma_sum_step_fits(i as int, total as int, ws@[i as int] as int);
        }
        total = total + (ws[i] as i128);
        i = i + 1;
    }
    total <= (i64::MAX as i128)
}

proof fn lemma_sum_step_fits(i: int, total: int, w: int)
    requires
        0 <= i <= 0xffff_ffff_ffff_ffff,
        -0x8000_0000_0000_0000 * i <= total <= 0x7fff_ffff_ffff_ffff * i,
        -0x8000_0000_0000_0000 <= w <= 0x7fff_ffff_ffff_ffff,
    ensures
        -0x8000_0000_0000_0000 * (i + 1) <= total + w <= 0x7fff_ffff_ffff_ffff * (i + 1),
        -0x8000_0000_0000_0000_0000_0000_0000_0000 <= total + w
            <= 0x7fff_ffff_ffff_ffff_ffff_ffff_ffff_ffff,
{
    assert(-0x8000_0000_0000_0000 * (i + 1) == -0x8000_0000_0000_0000 * i
        + -0x8000_0000_0000_0000) by (nonlinear_arith);
    assert(0x7fff_ffff_ffff_ffff * (i + 1) == 0x7fff_ffff_ffff_ffff * i + 0x7fff_ffff_ffff_ffff)
        by (nonlinear_arith);
    assert(0x7fff_ffff_ffff_ffff * (i + 1) <= 0x7fff_ffff_ffff_ffff * 0x1_0000_0000_0000_0000)
        by (nonlinear_arith)
        requires
            0 <= i <= 0xffff_ffff_ffff_ffff,
    ;
    assert(-0x8000_0000_0000_0000 * (i + 1) >= -0x8000_0000_0000_0000 * 0x1_0000_0000_0000_0000)
        by (nonlinear_arith)
        requires
            0 <= i <= 0xffff_ffff_ffff_ffff,
    ;
}

} // verus!
