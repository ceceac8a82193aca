//! Batch splitting: shuffle a finite collection, then slice it by cumulative
//! weight into one owned part per partition.
//!
//! Every part but the last holds `floor(weight * n / total)` elements; the
//! last absorbs the rounding remainder, so the sizes always sum to `n`.
use vstd::prelude::*;

use vstd::arithmetic::div_mod::lemma_div_is_ordered;
use vstd::arithmetic::div_mod::lemma_div_multiples_vanish;
use vstd::arithmetic::div_mod::lemma_div_pos_is_pos;
use vstd::arithmetic::div_mod::lemma_fundamental_div_mod;
use vstd::arithmetic::div_mod::lemma_mod_division_less_than_divisor;

use crate::SplitError;
use crate::check_weights;
use crate::lemma_sum_prefix_bounds;
use crate::lemma_sum_weights_positive;
use crate::sampling::fresh_rng;
use crate::sampling::shuffle_vec;
use crate::sum_prefix;
use crate::sum_weights;
use crate::valid_weights;

verus! {

/// The floor of `w * n / total`: the proportional share of `n` items that a
/// weight `w` claims out of a total weight `total`.
pub open spec fn floor_share(w: int, n: int, total: int) -> int {
    (w * n) / total
}

/// Sum of the proportional shares of the first `k` weights.
pub open spec fn sum_shares(ws: Seq<i64>, n: int, k: int) -> int
    decreases k,
{
    if k <= 0 {
        0
    } else {
        sum_shares(ws, n, k - 1) + floor_share(ws[k - 1] as int, n, sum_weights(ws))
    }
}

/// Number of elements partition `i` receives when `n` elements are split by
/// the weights `ws`: its floor share, except that the last partition takes
/// whatever the earlier floors left over.
pub open spec fn part_size(ws: Seq<i64>, n: int, i: int) -> int {
    if i < ws.len() - 1 {
        floor_share(ws[i] as int, n, sum_weights(ws))
    } else {
        n - sum_shares(ws, n, ws.len() - 1)
    }
}

/// Sum of the sizes of the first `k` partitions.
pub open spec fn sum_part_sizes(ws: Seq<i64>, n: int, k: int) -> int
    decreases k,
{
    if k <= 0 {
        0
    } else {
        sum_part_sizes(ws, n, k - 1) + part_size(ws, n, k - 1)
    }
}

/// All parts laid end to end, in partition order.
pub open spec fn parts_flat<T>(parts: Seq<Vec<T>>) -> Seq<T>
    decreases parts.len(),
{
    if parts.len() == 0 {
        Seq::empty()
    } else {
        parts_flat(parts.drop_last()) + parts.last()@
    }
}

proof fn lemma_floor_share_bounds(w: int, n: int, total: int)
    requires
        0 <= w <= total,
        0 < total,
        0 <= n,
    ensures
        0 <= floor_share(w, n, total) <= n,
{
    assert(0 <= w * n && w * n <= total * n) by (nonlinear_arith)
        requires
            0 <= w <= total,
            0 <= n,
    ;
    lemma_div_pos_is_pos(w * n, total);
    lemma_div_is_ordered(w * n, total * n, total);
    lemma_div_multiples_vanish(n, total);
}

proof fn lemma_div_superadd(a: int, b: int, t: int)
    requires
        0 <= a,
        0 <= b,
        0 < t,
    ensures
        a / t + b / t <= (a + b) / t,
{
    lemma_fundamental_div_mod(a, t);
    lemma_fundamental_div_mod(b, t);
    lemma_mod_division_less_than_divisor(a, t);
    lemma_mod_division_less_than_divisor(b, t);
    let q = a / t + b / t;
    vstd::arithmetic::mul::lemma_mul_is_distributive_add(t, a / t, b / t);
    lemma_div_is_ordered(t * q, a + b, t);
    lemma_div_multiples_vanish(q, t);
}

/// Every prefix of floor shares stays within the proportional bound, hence
/// within `n`.
proof fn lemma_sum_shares_le(ws: Seq<i64>, n: int, k: int)
    requires
        valid_weights(ws),
        0 <= n,
        0 <= k <= ws.len(),
    ensures
        0 <= sum_shares(ws, n, k),
        sum_shares(ws, n, k) <= (sum_prefix(ws, k) * n) / sum_weights(ws),
        (sum_prefix(ws, k) * n) / sum_weights(ws) <= n,
    decreases k,
{
    let total = sum_weights(ws);
    lemma_sum_weights_positive(ws);
    lemma_sum_prefix_bounds(ws, k);
    assert(sum_prefix(ws, k) * n <= total * n) by (nonlinear_arith)
        requires
            sum_prefix(ws, k) <= total,
            0 <= n,
    ;
    assert(0 <= sum_prefix(ws, k) * n) by (nonlinear_arith)
        requires
            0 <= sum_prefix(ws, k),
            0 <= n,
    ;
    lemma_div_pos_is_pos(sum_prefix(ws, k) * n, total);
    lemma_div_is_ordered(sum_prefix(ws, k) * n, total * n, total);
    lemma_div_multiples_vanish(n, total);
    if k > 0 {
        lemma_sum_shares_le(ws, n, k - 1);
        lemma_sum_prefix_bounds(ws, k - 1);
        assert(0 <= ws[k - 1] * n) by (nonlinear_arith)
            requires
                0 <= ws[k - 1],
                0 <= n,
        ;
        lemma_div_pos_is_pos(ws[k - 1] * n, total);
        lemma_div_superadd(sum_prefix(ws, k - 1) * n, ws[k - 1] * n, total);
        assert(sum_prefix(ws, k - 1) * n + ws[k - 1] * n == sum_prefix(ws, k) * n)
            by (nonlinear_arith)
            requires
                sum_prefix(ws, k) == sum_prefix(ws, k - 1) + ws[k - 1],
        ;
    }
}

proof fn lemma_sum_part_sizes_eq_shares(ws: Seq<i64>, n: int, k: int)
    requires
        0 <= k <= ws.len() - 1,
    ensures
        sum_part_sizes(ws, n, k) == sum_shares(ws, n, k),
    decreases k,
{
    if k > 0 {
        lemma_sum_part_sizes_eq_shares(ws, n, k - 1);
    }
}

/// Law: for a valid weight vector the batch part sizes sum exactly to the
/// input length, whatever that length is — in particular also when it is
/// smaller than the number of weights. Each single size lies in `[0, n]`.
pub proof fn lemma_part_sizes_sum(ws: Seq<i64>, n: int)
    requires
        valid_weights(ws),
        0 <= n,
    ensures
        sum_part_sizes(ws, n, ws.len() as int) == n,
        forall|i: int| 0 <= i < ws.len() ==> 0 <= #[trigger] part_size(ws, n, i) <= n,
{
    let len = ws.len() as int;
    let total = sum_weights(ws);
    lemma_sum_weights_positive(ws);
    lemma_sum_part_sizes_eq_shares(ws, n, len - 1);
    lemma_sum_shares_le(ws, n, len - 1);
    assert forall|i: int| 0 <= i < ws.len() implies 0 <= #[trigger] part_size(ws, n, i) <= n by {
        if i < len - 1 {
            lemma_sum_prefix_bounds(ws, i + 1);
            lemma_sum_prefix_bounds(ws, i);
            assert(ws[i] == sum_prefix(ws, i + 1) - sum_prefix(ws, i));
            lemma_sum_prefix_nonneg_local(ws, i);
            lemma_floor_share_bounds(ws[i] as int, n, total);
        }
    }
}

proof fn lemma_sum_prefix_nonneg_local(ws: Seq<i64>, k: int)
    requires
        0 <= k <= ws.len(),
        forall|i: int| 0 <= i < ws.len() ==> ws[i] >= 0,
    ensures
        sum_prefix(ws, k) >= 0,
    decreases k,
{
    if k > 0 {
        lemma_sum_prefix_nonneg_local(ws, k - 1);
    }
}

/// Law: a zero-weight partition other than the last receives an empty batch
/// view. (The last partition absorbs the rounding remainder, so with zero
/// weight it can still receive leftover elements.)
pub proof fn lemma_zero_weight_empty_batch(ws: Seq<i64>, n: int, i: int)
    requires
        valid_weights(ws),
        0 <= n,
        0 <= i < ws.len() - 1,
        ws[i] == 0,
    ensures
        part_size(ws, n, i) == 0,
{
    lemma_sum_weights_positive(ws);
    assert(0int * n == 0) by (nonlinear_arith);
    assert(0int / sum_weights(ws) == 0) by {
        lemma_div_multiples_vanish(0, sum_weights(ws));
        assert(sum_weights(ws) * 0 == 0) by (nonlinear_arith);
    }
}

/// Sum of a non-negative weight vector, computed exactly.
fn sum_weights_u128(ws: &Vec<i64>) -> (t: u128)
    requires
        forall|i: int| 0 <= i < ws@.len() ==> ws@[i] >= 0,
    ensures
        t as int == sum_weights(ws@),
{
    let mut i: usize = 0;
    let mut total: u128 = 0;
    while i < ws.len()
        invariant
            i <= ws@.len(),
            forall|j: int| 0 <= j < ws@.len() ==> ws@[j] >= 0,
            total as int == sum_prefix(ws@, i as int),
            total <= 0x7fff_ffff_ffff_ffffu128 * (i as u128),
        decreases ws@.len() - i,
    {
        proof {
            lemma_sum_u128_step(i as int, total as int, ws@[i as int] as int);
        }
        total = total + (ws[i] as u128);
        i = i + 1;
    }
    total
}

proof fn lemma_sum_u128_step(i: int, total: int, w: int)
    requires
        0 <= i <= 0xffff_ffff_ffff_ffff,
        0 <= total <= 0x7fff_ffff_ffff_ffff * i,
        0 <= w <= 0x7fff_ffff_ffff_ffff,
    ensures
        total + w <= 0x7fff_ffff_ffff_ffff * (i + 1),
        total + w <= 0xffff_ffff_ffff_ffff_ffff_ffff_ffff_ffff,
{
    assert(0x7fff_ffff_ffff_ffff * (i + 1) == 0x7fff_ffff_ffff_ffff * i + 0x7fff_ffff_ffff_ffff)
        by (nonlinear_arith);
    assert(0x7fff_ffff_ffff_ffff * (i + 1) <= 0x7fff_ffff_ffff_ffff * 0x1_0000_0000_0000_0000)
        by (nonlinear_arith)
        requires
            0 <= i <= 0xffff_ffff_ffff_ffff,
    ;
}

/// Splits a collection into one part per weight: the collection is shuffled,
/// then sliced so that part `i` holds exactly `part_size(splits, n, i)`
/// elements, the rounding remainder going to the last part. The parts
/// together hold exactly the input elements.
pub fn split_parts<T>(cont: Vec<T>, splits: &Vec<i64>) -> (r: Result<Vec<Vec<T>>, SplitError>)
    ensures
        match r {
            Ok(parts) => {
                &&& valid_weights(splits@)
                &&& parts@.len() == splits@.len()
                &&& forall|i: int|
                    0 <= i < parts@.len() ==> (#[trigger] parts@[i])@.len() == part_size(
                        splits@,
                        cont@.len() as int,
                        i,
                    )
                &&& parts_flat(parts@).to_multiset() == cont@.to_multiset()
                &&& parts_flat(parts@).len() == cont@.len()
                &&& forall|i: int|
                    0 <= i < parts@.len() - 1 && splits@[i] == 0 ==> (#[trigger] parts@[i])@.len()
                        == 0
            },
            Err(e) => e == SplitError::InvalidWeights && !valid_weights(splits@),
        },
{
    if !check_weights(splits) {
        return Err(SplitError::InvalidWeights);
    }
    proof {
        lemma_sum_weights_positive(splits@);
    }
    let mut data = cont;
    let mut rng = fresh_rng();
    shuffle_vec(&mut data, &mut rng);
    let ghost shuffled = data@;
    let n: usize = data.len();
    let total: u128 = sum_weights_u128(splits);
    let ghost gn = n as int;
    let n_weights: usize = splits.len();
    let mut parts: Vec<Vec<T>> = Vec::new();
    let mut i: usize = 0;
    while i + 1 < n_weights
        invariant
            valid_weights(splits@),
            sum_weights(splits@) == total as int,
            total > 0,
            splits@.len() == n_weights as int,
            i <= splits@.len() - 1,
            parts@.len() == i,
            shuffled.len() == gn,
            gn == cont@.len(),
            gn == n as int,
            forall|j: int|
                0 <= j < i ==> (#[trigger] parts@[j])@.len() == part_size(splits@, gn, j),
            forall|j: int| 0 <= j < i && splits@[j] == 0 ==> (#[trigger] parts@[j])@.len() == 0,
            0 <= sum_shares(splits@, gn, i as int) <= gn,
            parts_flat(parts@) == shuffled.take(sum_shares(splits@, gn, i as int)),
            data@ == shuffled.skip(sum_shares(splits@, gn, i as int)),
        decreases splits@.len() - i,
    {
        let ghost done = sum_shares(splits@, gn, i as int);
        let w = splits[i];
        proof {
            assert(splits@[i as int] >= 0);
            assert(w as int == sum_prefix(splits@, i as int + 1) - sum_prefix(splits@, i as int));
            lemma_sum_shares_le(splits@, gn, i as int + 1);
            lemma_sum_prefix_bounds(splits@, i as int + 1);
            lemma_sum_prefix_nonneg_local(splits@, i as int);
            assert(w as int <= total as int);
            lemma_floor_share_bounds(w as int, gn, total as int);
            assert((w as int) * (n as int) <= 0x7fff_ffff_ffff_ffff * 0xffff_ffff_ffff_ffff)
                by (nonlinear_arith)
                requires
                    0 <= w as int <= 0x7fff_ffff_ffff_ffff,
                    0 <= n as int <= 0xffff_ffff_ffff_ffff,
            ;
            assert(0 <= (w as int) * (n as int)) by (nonlinear_arith)
                requires
                    0 <= w as int,
                    0 <= n as int,
            ;
        }
        let size128: u128 = (w as u128) * (n as u128) / total;
        proof {
            assert(size128 as int == ((w as int) * (n as int)) / (total as int));
            assert(size128 as int == floor_share(w as int, gn, total as int));
            assert(done + size128 as int == sum_shares(splits@, gn, i as int + 1));
            assert(size128 as int <= gn);
        }
        let size: usize = size128 as usize;
        assert(size as int <= data@.len());
        let ghost prev_parts = parts@;
        let rest = data.split_off(size);
        let ghost chunk = data@;
        parts.push(data);
        data = rest;
        proof {
            assert(parts@.drop_last() =~= prev_parts);
            assert(parts_flat(parts@) == parts_flat(prev_parts) + chunk);
            assert(chunk =~= shuffled.skip(done).take(size as int));
            assert(shuffled.take(done) + shuffled.skip(done).take(size as int) =~= shuffled.take(
                done + size as int,
            ));
            assert(parts_flat(parts@) =~= shuffled.take(done + size as int));
            assert(data@ =~= shuffled.skip(done + size as int));
            if w == 0 {
                lemma_zero_weight_empty_batch(splits@, gn, i as int);
            }
        }
        i = i + 1;
    }
    let ghost done = sum_shares(splits@, gn, i as int);
    let ghost prev_parts = parts@;
    let ghost last_chunk = data@;
    proof {
        lemma_sum_shares_le(splits@, gn, i as int);
        assert(i as int == splits@.len() - 1);
    }
    parts.push(data);
    proof {
        assert(parts@.drop_last() =~= prev_parts);
        assert(parts_flat(parts@) == parts_flat(prev_parts) + last_chunk);
        assert(shuffled.take(done) + shuffled.skip(done) =~= shuffled);
        assert(parts_flat(parts@) =~= shuffled);
        assert(last_chunk.len() == gn - done);
        lemma_part_sizes_sum(splits@, gn);
        assert forall|j: int|
            0 <= j < parts@.len() - 1 && splits@[j] == 0 implies (#[trigger] parts@[j])@.len()
            == 0 by {
            lemma_zero_weight_empty_batch(splits@, gn, j);
        }
    }
    Ok(parts)
}

/// Splits a collection into two parts, sized by a train and a test weight.
pub fn train_test_split<T>(cont: Vec<T>, train: i64, test: i64) -> (r: Result<
    Vec<Vec<T>>,
    SplitError,
>)
    ensures
        match r {
            Ok(parts) => {
                &&& valid_weights(seq![train, test])
                &&& parts@.len() == 2
                &&& forall|i: int|
                    0 <= i < 2 ==> (#[trigger] parts@[i])@.len() == part_size(
                        seq![train, test],
                        cont@.len() as int,
                        i,
                    )
                &&& parts_flat(parts@).to_multiset() == cont@.to_multiset()
            },
            Err(e) => e == SplitError::InvalidWeights && !valid_weights(seq![train, test]),
        },
{
    let mut ws: Vec<i64> = Vec::new();
    ws.push(train);
    ws.push(test);
    assert(ws@ =~= seq![train, test]);
    split_parts(cont, &ws)
}

/// Splits a collection into three parts, sized by train, test and validation
/// weights.
pub fn ttv_split<T>(cont: Vec<T>, train: i64, test: i64, validation: i64) -> (r: Result<
    Vec<Vec<T>>,
    SplitError,
>)
    ensures
        match r {
            Ok(parts) => {
                &&& valid_weights(seq![train, test, validation])
                &&& parts@.len() == 3
                &&& forall|i: int|
                    0 <= i < 3 ==> (#[trigger] parts@[i])@.len() == part_size(
                        seq![train, test, validation],
                        cont@.len() as int,
                        i,
                    )
                &&& parts_flat(parts@).to_multiset() == cont@.to_multiset()
            },
            Err(e) => e == SplitError::InvalidWeights && !valid_weights(
                seq![train, test, validation],
            ),
        },
{
    let mut ws: Vec<i64> = Vec::new();
    ws.push(train);
    ws.push(test);
    ws.push(validation);
    assert(ws@ =~= seq![train, test, validation]);
    split_parts(cont, &ws)
}

} // verus!
