//! Information metrics over the distribution of scores a guess induces.
//!
//! Scoring one guess against every plausible answer yields a distribution of
//! outcome patterns: a list of buckets, one per distinct score, each with an
//! occurrence count. Two metrics reduce that distribution to one number, on a
//! fixed integer scale of a billion steps per bit so that ranking guesses is
//! deterministic:
//!
//! - expected entropy: the sum over buckets of `p * -log2(p)`, computed as
//!   an exact weighted sum of fixed-point logarithms and floored onto the
//!   grid once, so that it always dominates the minimax surprise;
//! - minimax surprise: `-log2(max_count / total)`, scaled — the information
//!   gained even when an adversary steers the answer into the largest bucket.

use vstd::prelude::*;

use crate::fixedlog::{
    lemma_log2_fixed_equal, lemma_log2_fixed_positive, log2_fixed, log2_fixed_exec, LOG_ONE,
};
use crate::scorer::{score, score_spec};
use crate::word::{Score, Word};

verus! {

/// Scale factor: metric steps per bit of information.
pub const METRIC_SCALE: u64 = 1_000_000_000;

/// Largest distribution total for which the metric functions are specified.
pub const MAX_TOTAL: usize = 1_000_000;

/// Upper bound on any single scaled metric value: the scale times the
/// logarithm of the largest admissible total, rounded far up.
pub const METRIC_BOUND: u64 = 21_000_000_000;

/// `METRIC_SCALE * log2(total/count)`, on the fixed-point grid: the
/// surprise of landing in a bucket of `count` answers.
pub open spec fn surprise_of(count: nat, total: nat) -> nat {
    (log2_fixed(count, total) * (METRIC_SCALE as nat)) / (LOG_ONE as nat)
}

/// Division keeps order with a positive divisor.
proof fn lemma_div_le(a: nat, b: nat, m: nat)
    requires
        0 < m,
        a <= b,
    ensures
        a / m <= b / m,
{
    assert(a / m <= b / m) by (nonlinear_arith)
        requires
            0 < m,
            a <= b,
    ;
}

/// A bucket that holds every answer carries no surprise.
pub proof fn lemma_surprise_zero(total: nat)
    requires
        1 <= total,
    ensures
        surprise_of(total, total) == 0,
{
    lemma_log2_fixed_equal(total);
}

/// A bucket that misses some answer carries strictly positive surprise,
/// as long as the total stays within the grid's range.
pub proof fn lemma_surprise_positive(count: nat, total: nat)
    requires
        1 <= count < total <= MAX_TOTAL as nat,
    ensures
        surprise_of(count, total) >= 1,
{
    let sc = METRIC_SCALE as nat;
    let one = LOG_ONE as nat;
    let l = log2_fixed(count, total);
    lemma_log2_fixed_positive(count, total);
    assert(one == 0x40000000);
    assert(l * sc >= 512 * sc) by (nonlinear_arith)
        requires
            l >= 512,
            sc > 0,
    ;
    lemma_div_le(512 * sc, l * sc, one);
    assert((512 * sc) / one == 476);
}

/// The fixed-point logarithm never exceeds 21 whole bits on the grid.
pub proof fn lemma_log2_bound(count: nat, total: nat)
    requires
        1 <= count <= total <= MAX_TOTAL as nat,
    ensures
        log2_fixed(count, total) <= 21 * (LOG_ONE as nat),
{
    let one = LOG_ONE as nat;
    crate::fixedlog::lemma_int_log2_bound(count, total);
    crate::fixedlog::lemma_log2_fixed_parts(count, total);
    assert((crate::fixedlog::int_log2(count, total) + 1) * one <= 21 * one) by (
    nonlinear_arith)
        requires
            crate::fixedlog::int_log2(count, total) <= 20,
            one > 0,
    ;
}

/// The scaled surprise fits comfortably in a machine word.
pub proof fn lemma_surprise_bound(count: nat, total: nat)
    requires
        1 <= count <= total <= MAX_TOTAL as nat,
    ensures
        surprise_of(count, total) <= METRIC_BOUND as nat,
{
    let sc = METRIC_SCALE as nat;
    let one = LOG_ONE as nat;
    let l = log2_fixed(count, total);
    lemma_log2_bound(count, total);
    assert(l * sc <= 21 * one * sc) by (nonlinear_arith)
        requires
            l <= 21 * one,
            sc > 0,
    ;
    lemma_div_le(l * sc, 21 * one * sc, one);
    assert((21 * one * sc) / one == 21 * sc) by (nonlinear_arith)
        requires
            one > 0,
            sc > 0,
    ;
}

/// The scaled surprise of a bucket, computed on the grid.
pub fn surprise_scaled(count: usize, total: usize) -> (r: u64)
    requires
        1 <= count <= total <= MAX_TOTAL,
    ensures
        r as nat == surprise_of(count as nat, total as nat),
        r <= METRIC_BOUND,
{
    proof {
        lemma_surprise_bound(count as nat, total as nat);
    }
    let l = log2_fixed_exec(count, total);
    proof {
        assert((l as nat) * (METRIC_SCALE as nat) <= (21 * 0x40000000) * 1_000_000_000) by (
        nonlinear_arith)
            requires
                l as nat <= 21 * 0x40000000,
        ;
    }
    let num: u128 = (l as u128) * (METRIC_SCALE as u128);
    let q: u128 = num / (LOG_ONE as u128);
    q as u64
}

/// The sequences of letters each word in `ws` holds.
pub open spec fn words_view(ws: Seq<Word>) -> Seq<Seq<char>> {
    ws.map_values(|w: Word| w@)
}

/// Bucket counts as mathematical integers.
pub open spec fn nat_counts(cs: Seq<usize>) -> Seq<nat> {
    cs.map_values(|c: usize| c as nat)
}

/// Index of the first bucket keyed by the score `sc`, or `-1` if none is.
pub open spec fn bucket_index(bs: Seq<(Seq<u8>, nat)>, sc: Seq<u8>) -> int
    decreases bs.len(),
{
    if bs.len() == 0 {
        -1
    } else if bs[0].0 == sc {
        0
    } else {
        let r = bucket_index(bs.drop_first(), sc);
        if r == -1 {
            -1
        } else {
            r + 1
        }
    }
}

/// Record one more observation of the score `sc` in the distribution.
pub open spec fn add_score(bs: Seq<(Seq<u8>, nat)>, sc: Seq<u8>) -> Seq<(Seq<u8>, nat)> {
    let j = bucket_index(bs, sc);
    if j >= 0 {
        bs.update(j, (sc, (bs[j].1 + 1) as nat))
    } else {
        bs.push((sc, 1nat))
    }
}

/// The distribution of scores that `g` induces over `answers`: one bucket
/// per distinct outcome pattern, in order of first appearance.
pub open spec fn buckets_spec(g: Seq<char>, answers: Seq<Seq<char>>) -> Seq<(Seq<u8>, nat)>
    decreases answers.len(),
{
    if answers.len() == 0 {
        Seq::empty()
    } else {
        add_score(buckets_spec(g, answers.drop_last()), score_spec(g, answers.last()))
    }
}

/// The counts of a distribution, keys dropped.
pub open spec fn counts_of(bs: Seq<(Seq<u8>, nat)>) -> Seq<nat> {
    bs.map_values(|p: (Seq<u8>, nat)| p.1)
}

/// Sum of all bucket counts.
pub open spec fn total_of(cs: Seq<nat>) -> nat
    decreases cs.len(),
{
    if cs.len() == 0 {
        0
    } else {
        total_of(cs.drop_last()) + cs.last()
    }
}

/// Largest bucket count.
pub open spec fn max_of(cs: Seq<nat>) -> nat
    decreases cs.len(),
{
    if cs.len() == 0 {
        0
    } else if max_of(cs.drop_last()) >= cs.last() {
        max_of(cs.drop_last())
    } else {
        cs.last()
    }
}

/// Exact weighted logarithm sum: each bucket contributes its count times
/// the fixed-point logarithm of its ratio.
pub open spec fn weighted_log_sum(cs: Seq<nat>, total: nat) -> nat
    decreases cs.len(),
{
    if cs.len() == 0 {
        0
    } else {
        weighted_log_sum(cs.drop_last(), total) + cs.last() * log2_fixed(cs.last(), total)
    }
}

/// The scaled expected entropy of a distribution: the exact weighted sum,
/// divided by the total and floored onto the grid once.
pub open spec fn entropy_value(cs: Seq<nat>) -> nat {
    let total = total_of(cs);
    if total < 1 {
        0
    } else {
        ((weighted_log_sum(cs, total) * (METRIC_SCALE as nat)) / total) / (LOG_ONE as nat)
    }
}

/// The scaled minimax surprise of a non-empty distribution.
pub open spec fn surprise_value(cs: Seq<nat>) -> int {
    surprise_of(max_of(cs), total_of(cs)) as int
}

/// The metric value of playing `g` when `answers` are still plausible.
pub open spec fn eval_spec(g: Seq<char>, answers: Seq<Seq<char>>, adversarial: bool) -> int {
    let cs = counts_of(buckets_spec(g, answers));
    if adversarial {
        surprise_value(cs)
    } else {
        entropy_value(cs) as int
    }
}

/// Both metrics are nonnegative on every distribution.
pub proof fn lemma_eval_nonneg(g: Seq<char>, answers: Seq<Seq<char>>, adversarial: bool)
    ensures
        eval_spec(g, answers, adversarial) >= 0,
{
}

/// The weighted sum dominates each single bucket's contribution.
proof fn lemma_weighted_ge_term(cs: Seq<nat>, total: nat, i: int)
    requires
        0 <= i < cs.len(),
    ensures
        weighted_log_sum(cs, total) >= cs[i] * log2_fixed(cs[i], total),
    decreases cs.len(),
{
    if i == cs.len() - 1 {
    } else {
        lemma_weighted_ge_term(cs.drop_last(), total, i);
    }
}

/// A uniform lower bound on every bucket's logarithm bounds the whole
/// weighted sum from below by `total` times it.
proof fn lemma_weighted_ge_uniform(cs: Seq<nat>, total: nat, lmax: nat)
    requires
        forall|i: int| 0 <= i < cs.len() ==> lmax <= log2_fixed(#[trigger] cs[i], total),
    ensures
        weighted_log_sum(cs, total) >= total_of(cs) * lmax,
    decreases cs.len(),
{
    if cs.len() == 0 {
        assert(total_of(cs) == 0);
        assert(total_of(cs) * lmax == 0) by (nonlinear_arith)
            requires
                total_of(cs) == 0,
        ;
    } else {
        assert forall|i: int|
            0 <= i < cs.drop_last().len() implies lmax <= log2_fixed(
            #[trigger] cs.drop_last()[i],
            total,
        ) by {
            assert(cs.drop_last()[i] == cs[i]);
        }
        lemma_weighted_ge_uniform(cs.drop_last(), total, lmax);
        assert(cs[cs.len() - 1] == cs.last());
        assert(cs.last() * log2_fixed(cs.last(), total) >= cs.last() * lmax) by (
        nonlinear_arith)
            requires
                log2_fixed(cs.last(), total) >= lmax,
        ;
        assert(total_of(cs.drop_last()) * lmax + cs.last() * lmax == (total_of(cs.drop_last())
            + cs.last()) * lmax) by (nonlinear_arith);
    }
}

/// A uniform upper bound on every bucket's logarithm bounds the whole
/// weighted sum from above by `total` times it.
proof fn lemma_weighted_le_uniform(cs: Seq<nat>, total: nat, lcap: nat)
    requires
        forall|i: int| 0 <= i < cs.len() ==> log2_fixed(#[trigger] cs[i], total) <= lcap,
    ensures
        weighted_log_sum(cs, total) <= total_of(cs) * lcap,
    decreases cs.len(),
{
    if cs.len() == 0 {
        assert(total_of(cs) == 0);
        assert(total_of(cs) * lcap == 0) by (nonlinear_arith)
            requires
                total_of(cs) == 0,
        ;
    } else {
        assert forall|i: int|
            0 <= i < cs.drop_last().len() implies log2_fixed(#[trigger] cs.drop_last()[i], total)
            <= lcap by {
            assert(cs.drop_last()[i] == cs[i]);
        }
        lemma_weighted_le_uniform(cs.drop_last(), total, lcap);
        assert(cs[cs.len() - 1] == cs.last());
        assert(cs.last() * log2_fixed(cs.last(), total) <= cs.last() * lcap) by (
        nonlinear_arith)
            requires
                log2_fixed(cs.last(), total) <= lcap,
        ;
        assert(total_of(cs.drop_last()) * lcap + cs.last() * lcap == (total_of(cs.drop_last())
            + cs.last()) * lcap) by (nonlinear_arith);
    }
}

/// A distribution of at most one bucket has zero entropy.
pub proof fn lemma_entropy_single(cs: Seq<nat>)
    requires
        cs.len() <= 1,
        forall|i: int| 0 <= i < cs.len() ==> 1 <= #[trigger] cs[i],
    ensures
        entropy_value(cs) == 0,
{
    if cs.len() == 1 {
        assert(cs.drop_last().len() == 0);
        assert(total_of(cs.drop_last()) == 0);
        assert(cs.last() == cs[0]);
        let total = total_of(cs);
        assert(total == cs[0]);
        lemma_log2_fixed_equal(total);
        assert(weighted_log_sum(cs.drop_last(), total) == 0);
        assert(weighted_log_sum(cs, total) == cs[0] * log2_fixed(cs[0], total));
        assert(cs[0] * log2_fixed(cs[0], total) == 0) by (nonlinear_arith)
            requires
                log2_fixed(cs[0], total) == 0,
        ;
    }
}

/// A distribution of two or more buckets carries strictly positive
/// entropy, within the grid's range.
pub proof fn lemma_entropy_positive(cs: Seq<nat>)
    requires
        cs.len() >= 2,
        forall|i: int| 0 <= i < cs.len() ==> 1 <= #[trigger] cs[i],
        total_of(cs) <= MAX_TOTAL as nat,
    ensures
        entropy_value(cs) >= 1,
{
    let sc = METRIC_SCALE as nat;
    let one = LOG_ONE as nat;
    let total = total_of(cs);
    lemma_two_le_total(cs, 0, 1);
    assert(total >= 2);
    // the smaller of the first two buckets covers at most half the total
    let small: int = if cs[0] <= cs[1] {
        0
    } else {
        1
    };
    assert(2 * cs[small] <= total);
    assert(crate::fixedlog::int_log2(cs[small], total) >= 1);
    crate::fixedlog::lemma_log2_fixed_parts(cs[small], total);
    assert(log2_fixed(cs[small], total) >= one) by (nonlinear_arith)
        requires
            log2_fixed(cs[small], total) >= crate::fixedlog::int_log2(cs[small], total) * one,
            crate::fixedlog::int_log2(cs[small], total) >= 1,
            one > 0,
    ;
    lemma_weighted_ge_term(cs, total, small);
    assert(cs[small] * log2_fixed(cs[small], total) >= one) by (nonlinear_arith)
        requires
            cs[small] >= 1,
            log2_fixed(cs[small], total) >= one,
    ;
    assert(weighted_log_sum(cs, total) * sc >= one * sc) by (nonlinear_arith)
        requires
            weighted_log_sum(cs, total) >= one,
            sc > 0,
    ;
    lemma_div_le(one * sc, weighted_log_sum(cs, total) * sc, total);
    assert((one * sc) / total >= (one * sc) / 1_000_000) by (nonlinear_arith)
        requires
            0 < total <= 1_000_000,
    ;
    assert((one * sc) / 1_000_000 == one * 1000);
    lemma_div_le(one * 1000, (weighted_log_sum(cs, total) * sc) / total, one);
    assert((one * 1000) / one == 1000) by (nonlinear_arith)
        requires
            one > 0,
    ;
}

/// The entropy value fits comfortably in a machine word.
pub proof fn lemma_entropy_bound(cs: Seq<nat>)
    requires
        forall|i: int| 0 <= i < cs.len() ==> 1 <= #[trigger] cs[i],
        total_of(cs) <= MAX_TOTAL as nat,
    ensures
        entropy_value(cs) <= METRIC_BOUND as nat,
{
    let sc = METRIC_SCALE as nat;
    let one = LOG_ONE as nat;
    let total = total_of(cs);
    if total >= 1 {
        assert forall|i: int|
            0 <= i < cs.len() implies log2_fixed(#[trigger] cs[i], total) <= 21 * one by {
            lemma_elem_le_total(cs, i);
            lemma_log2_bound(cs[i], total);
        }
        lemma_weighted_le_uniform(cs, total, 21 * one);
        let w = weighted_log_sum(cs, total);
        assert(w * sc <= (total * (21 * one)) * sc) by (nonlinear_arith)
            requires
                w <= total * (21 * one),
                sc > 0,
        ;
        assert((total * (21 * one)) * sc == total * (21 * one * sc)) by (nonlinear_arith);
        lemma_div_le(w * sc, total * (21 * one * sc), total);
        assert((total * (21 * one * sc)) / total == 21 * one * sc) by (nonlinear_arith)
            requires
                total > 0,
        ;
        lemma_div_le((w * sc) / total, 21 * one * sc, one);
        assert((21 * one * sc) / one == 21 * sc) by (nonlinear_arith)
            requires
                one > 0,
                sc > 0,
        ;
    }
}

/// The worst-case guaranteed information never exceeds the expected
/// information: minimax surprise is at most expected entropy, bucket for
/// bucket, because every bucket is at least as surprising as the largest
/// one and the weighted sum is floored only once.
pub proof fn lemma_surprise_le_entropy(cs: Seq<nat>)
    requires
        cs.len() >= 1,
        forall|i: int| 0 <= i < cs.len() ==> 1 <= #[trigger] cs[i],
        total_of(cs) <= MAX_TOTAL as nat,
    ensures
        surprise_value(cs) <= entropy_value(cs) as int,
{
    let sc = METRIC_SCALE as nat;
    let one = LOG_ONE as nat;
    let total = total_of(cs);
    let mx = max_of(cs);
    lemma_max_of(cs);
    lemma_elem_le_total(cs, 0);
    assert(1 <= cs[0] <= total);
    assert(mx >= cs[0]);
    let w = choose|i: int| 0 <= i < cs.len() && cs[i] == mx;
    lemma_elem_le_total(cs, w);
    assert(1 <= mx <= total);
    let lmax = log2_fixed(mx, total);
    // every bucket is at least as surprising as the largest one
    assert forall|i: int| 0 <= i < cs.len() implies lmax <= log2_fixed(
        #[trigger] cs[i],
        total,
    ) by {
        assert(cs[i] <= mx);
        crate::fixedlog::lemma_log2_fixed_antimono(cs[i], mx, total);
    }
    lemma_weighted_ge_uniform(cs, total, lmax);
    let ws = weighted_log_sum(cs, total);
    assert(ws * sc >= (total * lmax) * sc) by (nonlinear_arith)
        requires
            ws >= total * lmax,
            sc > 0,
    ;
    assert((total * lmax) * sc == total * (lmax * sc)) by (nonlinear_arith);
    lemma_div_le(total * (lmax * sc), ws * sc, total);
    assert((total * (lmax * sc)) / total == lmax * sc) by (nonlinear_arith)
        requires
            total > 0,
    ;
    lemma_div_le(lmax * sc, (ws * sc) / total, one);
}

/// All the scores of `answers` against `g` agree.
pub open spec fn scores_all_equal(g: Seq<char>, answers: Seq<Seq<char>>) -> bool {
    forall|i: int, j: int|
        0 <= i < answers.len() && 0 <= j < answers.len() ==> score_spec(g, answers[i])
            == score_spec(g, answers[j])
}

/// `bucket_index` finds the first bucket with the key and only that.
pub proof fn lemma_bucket_index(bs: Seq<(Seq<u8>, nat)>, sc: Seq<u8>)
    ensures
        bucket_index(bs, sc) == -1 ==> forall|k: int| 0 <= k < bs.len() ==> bs[k].0 != sc,
        bucket_index(bs, sc) != -1 ==> {
            &&& 0 <= bucket_index(bs, sc) < bs.len()
            &&& bs[bucket_index(bs, sc)].0 == sc
            &&& forall|k: int| 0 <= k < bucket_index(bs, sc) ==> bs[k].0 != sc
        },
    decreases bs.len(),
{
    if bs.len() == 0 {
    } else if bs[0].0 == sc {
    } else {
        lemma_bucket_index(bs.drop_first(), sc);
        let r = bucket_index(bs.drop_first(), sc);
        if r == -1 {
            assert forall|k: int| 0 <= k < bs.len() implies bs[k].0 != sc by {
                if k > 0 {
                    assert(bs.drop_first()[k - 1].0 != sc);
                }
            }
        } else {
            assert(bs[r + 1].0 == bs.drop_first()[r].0);
            assert forall|k: int| 0 <= k < r + 1 implies bs[k].0 != sc by {
                if k > 0 {
                    assert(bs.drop_first()[k - 1].0 != sc);
                }
            }
        }
    }
}

/// Each element of a count list is at most the total.
pub proof fn lemma_elem_le_total(cs: Seq<nat>, i: int)
    requires
        0 <= i < cs.len(),
    ensures
        cs[i] <= total_of(cs),
    decreases cs.len(),
{
    if i == cs.len() - 1 {
    } else {
        lemma_elem_le_total(cs.drop_last(), i);
    }
}

/// Two distinct elements of a count list together are at most the total.
pub proof fn lemma_two_le_total(cs: Seq<nat>, i: int, j: int)
    requires
        0 <= i < j < cs.len(),
    ensures
        cs[i] + cs[j] <= total_of(cs),
    decreases cs.len(),
{
    if j == cs.len() - 1 {
        lemma_elem_le_total(cs.drop_last(), i);
    } else {
        lemma_two_le_total(cs.drop_last(), i, j);
    }
}

/// A count list of positive entries is no longer than its total.
pub proof fn lemma_len_le_total(cs: Seq<nat>)
    requires
        forall|k: int| 0 <= k < cs.len() ==> 1 <= #[trigger] cs[k],
    ensures
        cs.len() <= total_of(cs),
    decreases cs.len(),
{
    if cs.len() > 0 {
        assert forall|k: int|
            0 <= k < cs.drop_last().len() implies 1 <= #[trigger] cs.drop_last()[k] by {
            assert(cs.drop_last()[k] == cs[k]);
        }
        lemma_len_le_total(cs.drop_last());
    }
}

/// A prefix of a count list sums to no more than the whole.
pub proof fn lemma_total_take(cs: Seq<nat>, i: int)
    requires
        0 <= i <= cs.len(),
    ensures
        total_of(cs.take(i)) <= total_of(cs),
    decreases cs.len() - i,
{
    if i == cs.len() {
        assert(cs.take(i) =~= cs);
    } else {
        lemma_total_take(cs, i + 1);
        assert(cs.take(i + 1).drop_last() =~= cs.take(i));
    }
}

/// The largest count is one of the counts, and bounds them all.
pub proof fn lemma_max_of(cs: Seq<nat>)
    requires
        cs.len() > 0,
    ensures
        exists|i: int| 0 <= i < cs.len() && cs[i] == max_of(cs),
        forall|i: int| 0 <= i < cs.len() ==> cs[i] <= max_of(cs),
    decreases cs.len(),
{
    if cs.len() == 1 {
        assert(cs[0] == max_of(cs));
    } else {
        lemma_max_of(cs.drop_last());
        if max_of(cs.drop_last()) >= cs.last() {
            let w = choose|i: int|
                0 <= i < cs.drop_last().len() && cs.drop_last()[i] == max_of(cs.drop_last());
            assert(cs[w] == max_of(cs));
        } else {
            assert(cs[cs.len() - 1] == max_of(cs));
        }
        assert forall|i: int| 0 <= i < cs.len() implies cs[i] <= max_of(cs) by {
            if i < cs.len() - 1 {
                assert(cs.drop_last()[i] <= max_of(cs.drop_last()));
            }
        }
    }
}

/// Adding one observation raises the distribution's total by one.
proof fn lemma_add_score_total(bs: Seq<(Seq<u8>, nat)>, sc: Seq<u8>)
    ensures
        total_of(counts_of(add_score(bs, sc))) == total_of(counts_of(bs)) + 1,
{
    let j = bucket_index(bs, sc);
    lemma_bucket_index(bs, sc);
    if j >= 0 {
        lemma_update_total(counts_of(bs), j, (bs[j].1 + 1) as nat);
        assert(counts_of(add_score(bs, sc)) =~= counts_of(bs).update(j, (bs[j].1 + 1) as nat));
    } else {
        assert(counts_of(add_score(bs, sc)) =~= counts_of(bs).push(1nat));
        assert(counts_of(bs).push(1nat).drop_last() =~= counts_of(bs));
    }
}

/// Raising one count raises the total by the same amount.
proof fn lemma_update_total(cs: Seq<nat>, j: int, v: nat)
    requires
        0 <= j < cs.len(),
    ensures
        total_of(cs.update(j, v)) + cs[j] == total_of(cs) + v,
    decreases cs.len(),
{
    let t = cs.update(j, v);
    if j == cs.len() - 1 {
        assert(t.drop_last() =~= cs.drop_last());
    } else {
        lemma_update_total(cs.drop_last(), j, v);
        assert(t.drop_last() =~= cs.drop_last().update(j, v));
    }
}

/// A distribution built by scoring: the counts sum to the number of answers,
/// every bucket was observed at least once, and every answer's score has a
/// bucket.
pub proof fn lemma_buckets_shape(g: Seq<char>, answers: Seq<Seq<char>>)
    ensures
        total_of(counts_of(buckets_spec(g, answers))) == answers.len(),
        forall|k: int|
            0 <= k < buckets_spec(g, answers).len() ==> 1 <= #[trigger] buckets_spec(
                g,
                answers,
            )[k].1,
        forall|i: int|
            0 <= i < answers.len() ==> bucket_index(
                buckets_spec(g, answers),
                score_spec(g, #[trigger] answers[i]),
            ) >= 0,
    decreases answers.len(),
{
    if answers.len() > 0 {
        lemma_buckets_shape(g, answers.drop_last());
        let pre = buckets_spec(g, answers.drop_last());
        let sc = score_spec(g, answers.last());
        let bs = buckets_spec(g, answers);
        lemma_add_score_total(pre, sc);
        let j = bucket_index(pre, sc);
        lemma_bucket_index(pre, sc);
        lemma_bucket_index(bs, sc);
        // keys survive the addition, so earlier answers keep their buckets
        assert forall|i: int|
            0 <= i < answers.len() implies bucket_index(
            bs,
            score_spec(g, #[trigger] answers[i]),
        ) >= 0 by {
            if i < answers.len() - 1 {
                assert(answers.drop_last()[i] == answers[i]);
                let sci = score_spec(g, answers[i]);
                let ji = bucket_index(pre, sci);
                lemma_bucket_index(pre, sci);
                lemma_bucket_index(bs, sci);
                assert(ji >= 0);
                if j >= 0 {
                    assert(bs[ji].0 == sci);
                } else {
                    assert(bs[ji].0 == sci);
                }
                if bucket_index(bs, sci) == -1 {
                    assert(bs[ji].0 != sci);
                }
            } else {
                if j >= 0 {
                    assert(bs[j].0 == sc);
                    if bucket_index(bs, sc) == -1 {
                        assert(bs[j].0 != sc);
                    }
                } else {
                    assert(bs[bs.len() - 1].0 == sc);
                    if bucket_index(bs, sc) == -1 {
                        assert(bs[bs.len() - 1].0 != sc);
                    }
                }
            }
        }
    }
}

/// A distribution over at least one answer has exactly one bucket precisely
/// when every answer produces the same outcome pattern.
pub proof fn lemma_single_bucket(g: Seq<char>, answers: Seq<Seq<char>>)
    requires
        answers.len() >= 1,
    ensures
        buckets_spec(g, answers).len() == 1 <==> scores_all_equal(g, answers),
    decreases answers.len(),
{
    let bs = buckets_spec(g, answers);
    lemma_buckets_shape(g, answers);
    if bs.len() == 1 {
        assert forall|i: int, j: int|
            0 <= i < answers.len() && 0 <= j < answers.len() implies score_spec(g, answers[i])
            == score_spec(g, answers[j]) by {
            let sci = score_spec(g, answers[i]);
            let scj = score_spec(g, answers[j]);
            lemma_bucket_index(bs, sci);
            lemma_bucket_index(bs, scj);
            assert(bs[0].0 == sci);
            assert(bs[0].0 == scj);
        }
    }
    if scores_all_equal(g, answers) {
        if answers.len() == 1 {
            assert(buckets_spec(g, answers.drop_last()) =~= Seq::<(Seq<u8>, nat)>::empty());
            assert(bs.len() == 1);
        } else {
            lemma_single_bucket(g, answers.drop_last());
            let pre = buckets_spec(g, answers.drop_last());
            let sc = score_spec(g, answers.last());
            assert forall|i: int, j: int|
                0 <= i < answers.drop_last().len() && 0 <= j
                    < answers.drop_last().len() implies score_spec(g, answers.drop_last()[i])
                == score_spec(g, answers.drop_last()[j]) by {
                assert(answers.drop_last()[i] == answers[i]);
                assert(answers.drop_last()[j] == answers[j]);
            }
            assert(pre.len() == 1);
            lemma_buckets_shape(g, answers.drop_last());
            let j0 = bucket_index(pre, score_spec(g, answers[0]));
            lemma_bucket_index(pre, score_spec(g, answers[0]));
            assert(answers.drop_last()[0] == answers[0]);
            assert(j0 == 0);
            assert(pre[0].0 == score_spec(g, answers[0]));
            assert(sc == score_spec(g, answers[0]));
            assert(bucket_index(pre, sc) == 0);
            assert(bs =~= pre.update(0, (sc, (pre[0].1 + 1) as nat)));
            assert(bs.len() == 1);
        }
    }
}

/// The adversarial metric never exceeds the expected-entropy metric of
/// the same guess over the same plausible answers.
pub proof fn lemma_adversarial_le_entropy(g: Seq<char>, answers: Seq<Seq<char>>)
    requires
        1 <= answers.len() <= MAX_TOTAL as nat,
    ensures
        eval_spec(g, answers, true) <= eval_spec(g, answers, false),
{
    let bs = buckets_spec(g, answers);
    let cs = counts_of(bs);
    lemma_buckets_shape(g, answers);
    assert forall|i: int| 0 <= i < cs.len() implies 1 <= #[trigger] cs[i] by {
        assert(cs[i] == bs[i].1);
    }
    assert(cs.len() >= 1) by {
        if cs.len() == 0 {
            assert(total_of(cs) == 0);
        }
    }
    lemma_surprise_le_entropy(cs);
}

/// Sum `counts` as a machine integer; the total may not exceed `MAX_TOTAL`.
fn sum_counts(counts: &Vec<usize>) -> (r: usize)
    requires
        total_of(nat_counts(counts@)) <= MAX_TOTAL,
    ensures
        r == total_of(nat_counts(counts@)),
{
    let ghost cs = nat_counts(counts@);
    let mut r: usize = 0;
    let mut i: usize = 0;
    while i < counts.len()
        invariant
            i <= counts@.len(),
            cs == nat_counts(counts@),
            cs.len() == counts@.len(),
            forall|k: int| 0 <= k < cs.len() ==> cs[k] == counts@[k] as nat,
            r == total_of(cs.take(i as int)),
            total_of(cs) <= MAX_TOTAL,
        decreases counts@.len() - i,
    {
        proof {
            assert(cs.take(i + 1).drop_last() =~= cs.take(i as int));
            lemma_total_take(cs, i + 1);
        }
        r = r + counts[i];
        i = i + 1;
    }
    proof {
        assert(cs.take(cs.len() as int) =~= cs);
    }
    r
}

/// The scaled expected entropy of a distribution of outcome counts: the
/// exact weighted logarithm sum, floored onto the grid once.
///
/// Zero exactly when the distribution has at most one bucket, i.e. when the
/// guess cannot distinguish the plausible answers at all.
pub fn entropy(counts: &Vec<usize>) -> (r: u64)
    requires
        forall|k: int| 0 <= k < counts@.len() ==> 1 <= #[trigger] counts@[k],
        total_of(nat_counts(counts@)) <= MAX_TOTAL,
    ensures
        r as nat == entropy_value(nat_counts(counts@)),
        r == 0 <==> counts@.len() <= 1,
{
    let ghost cs = nat_counts(counts@);
    proof {
        lemma_len_le_total(cs);
    }
    let total = sum_counts(counts);
    if counts.len() == 0 {
        return 0;
    }
    let mut sum: u128 = 0;
    let mut i: usize = 0;
    while i < counts.len()
        invariant
            1 <= counts@.len(),
            i <= counts@.len(),
            cs == nat_counts(counts@),
            cs.len() == counts@.len(),
            cs.len() <= MAX_TOTAL,
            forall|k: int| 0 <= k < cs.len() ==> cs[k] == counts@[k] as nat,
            forall|k: int| 0 <= k < counts@.len() ==> 1 <= #[trigger] counts@[k],
            total == total_of(cs),
            1 <= total <= MAX_TOTAL,
            sum as nat == weighted_log_sum(cs.take(i as int), total as nat),
            sum <= i * (0x80000000000000u128 as int),
        decreases counts@.len() - i,
    {
        proof {
            lemma_elem_le_total(cs, i as int);
            assert(cs.take(i + 1).drop_last() =~= cs.take(i as int));
            assert(cs.take(i + 1).last() == cs[i as int]);
            assert(i * (0x80000000000000u128 as int) + 0x80000000000000 <= (i + 1) * (
            0x80000000000000u128 as int)) by (nonlinear_arith);
            assert((i + 1) * (0x80000000000000u128 as int) <= MAX_TOTAL * (
            0x80000000000000u128 as int)) by (nonlinear_arith)
                requires
                    i + 1 <= MAX_TOTAL,
            ;
        }
        let l = log2_fixed_exec(counts[i], total);
        proof {
            assert((counts@[i as int] as nat) * (l as nat) < 0x80000000000000) by (
            nonlinear_arith)
                requires
                    counts@[i as int] as nat <= 1_000_000,
                    l as nat <= 21 * 0x40000000,
            ;
        }
        let term: u128 = (counts[i] as u128) * (l as u128);
        sum = sum + term;
        i = i + 1;
    }
    proof {
        assert(cs.take(cs.len() as int) =~= cs);
        assert(sum as nat == weighted_log_sum(cs, total as nat));
        lemma_entropy_bound(cs);
        assert(sum <= MAX_TOTAL * (0x80000000000000u128 as int));
        assert((sum as nat) * (METRIC_SCALE as nat) <= (1_000_000 * 0x80000000000000)
            * 1_000_000_000) by (nonlinear_arith)
            requires
                sum as nat <= 1_000_000 * 0x80000000000000,
        ;
    }
    let scaled: u128 = (sum * (METRIC_SCALE as u128) / (total as u128)) / (LOG_ONE as u128);
    let r = scaled as u64;
    proof {
        assert(r as nat == entropy_value(cs));
        if counts@.len() == 1 {
            lemma_entropy_single(cs);
        } else {
            lemma_entropy_positive(cs);
        }
    }
    r
}

/// The scaled minimax surprise of a distribution of outcome counts, or
/// nothing for an empty distribution, which signals contradictory clues.
///
/// Zero exactly when the distribution has a single bucket.
pub fn min_surprise(counts: &Vec<usize>) -> (r: Option<u64>)
    requires
        forall|k: int| 0 <= k < counts@.len() ==> 1 <= #[trigger] counts@[k],
        total_of(nat_counts(counts@)) <= MAX_TOTAL,
    ensures
        counts@.len() == 0 ==> r is None,
        counts@.len() >= 1 ==> r == Some(
            (surprise_of(max_of(nat_counts(counts@)), total_of(nat_counts(counts@))) as u64),
        ),
        counts@.len() >= 1 ==> ((r == Some(0u64)) <==> counts@.len() == 1),
{
    let ghost cs = nat_counts(counts@);
    if counts.len() == 0 {
        return None;
    }
    let total = sum_counts(counts);
    let mut mx: usize = 0;
    let mut i: usize = 0;
    while i < counts.len()
        invariant
            i <= counts@.len(),
            cs == nat_counts(counts@),
            cs.len() == counts@.len(),
            forall|k: int| 0 <= k < cs.len() ==> cs[k] == counts@[k] as nat,
            forall|k: int| 0 <= k < counts@.len() ==> 1 <= #[trigger] counts@[k],
            total == total_of(cs),
            total <= MAX_TOTAL,
            mx == max_of(cs.take(i as int)),
            mx <= total,
        decreases counts@.len() - i,
    {
        proof {
            lemma_elem_le_total(cs, i as int);
            assert(cs.take(i + 1).drop_last() =~= cs.take(i as int));
        }
        if counts[i] > mx {
            mx = counts[i];
        }
        i = i + 1;
    }
    proof {
        assert(cs.take(cs.len() as int) =~= cs);
        assert(cs[0] == counts@[0] as nat);
        lemma_max_of(cs);
        assert(1 <= max_of(cs));
    }
    let s = surprise_scaled(mx, total);
    proof {
        if mx == total {
            lemma_surprise_zero(total as nat);
        } else {
            lemma_surprise_positive(mx as nat, total as nat);
        }
        if counts@.len() == 1 {
            assert(cs.drop_last().len() == 0);
            assert(max_of(cs.drop_last()) == 0);
            assert(total_of(cs.drop_last()) == 0);
            assert(cs.last() == cs[0]);
            assert(max_of(cs) == cs[0]);
            assert(total_of(cs) == cs[0]);
        } else if mx == total {
            let w = choose|k: int| 0 <= k < cs.len() && cs[k] == max_of(cs);
            let other: int = if w == 0 {
                1
            } else {
                0
            };
            if other < w {
                lemma_two_le_total(cs, other, w);
            } else {
                lemma_two_le_total(cs, w, other);
            }
        }
    }
    Some(s)
}

/// The chosen information metric for `guess` against the plausible answers:
/// the distribution of scores is tallied and reduced to one number. Zero
/// exactly when every plausible answer yields the same outcome pattern.
pub fn evaluate_guess(guess: &Word, plausible: &Vec<Word>, adversarial: bool) -> (r: u64)
    requires
        1 <= plausible@.len() <= MAX_TOTAL,
        forall|i: int|
            0 <= i < plausible@.len() ==> (#[trigger] plausible@[i])@.len() == guess@.len(),
    ensures
        r as int == eval_spec(guess@, words_view(plausible@), adversarial),
        r == 0 <==> scores_all_equal(guess@, words_view(plausible@)),
{
    let ghost av = words_view(plausible@);
    let (keys, counts) = build_buckets(guess, plausible);
    let ghost bs = buckets_spec(guess@, av);
    proof {
        lemma_buckets_shape(guess@, av);
        assert(nat_counts(counts@) =~= counts_of(bs));
        assert forall|k: int| 0 <= k < counts@.len() implies 1 <= #[trigger] counts@[k] by {
            assert(counts_of(bs)[k] == bs[k].1);
        }
        lemma_single_bucket(guess@, av);
        if bs.len() == 0 {
            assert(total_of(counts_of(bs)) == 0);
        }
    }
    if adversarial {
        match min_surprise(&counts) {
            Some(s) => {
                proof {
                    lemma_elem_le_total(nat_counts(counts@), 0);
                    lemma_max_of(nat_counts(counts@));
                    assert forall|k: int|
                        0 <= k < nat_counts(counts@).len() implies nat_counts(counts@)[k]
                        <= total_of(nat_counts(counts@)) by {
                        lemma_elem_le_total(nat_counts(counts@), k);
                    }
                    lemma_surprise_bound(
                        max_of(nat_counts(counts@)),
                        total_of(nat_counts(counts@)),
                    );
                }
                s
            },
            None => {
                proof {
                    assert(counts@.len() == counts_of(bs).len());
                    assert(false);
                }
                0
            },
        }
    } else {
        entropy(&counts)
    }
}

/// Tally the distribution of scores of `guess` against every answer:
/// parallel lists of distinct score patterns and their occurrence counts.
fn build_buckets(guess: &Word, answers: &Vec<Word>) -> (r: (Vec<Score>, Vec<usize>))
    requires
        forall|i: int|
            0 <= i < answers@.len() ==> (#[trigger] answers@[i])@.len() == guess@.len(),
    ensures
        ({
            let bs = buckets_spec(guess@, words_view(answers@));
            &&& r.0@.len() == bs.len()
            &&& r.1@.len() == bs.len()
            &&& forall|k: int| 0 <= k < bs.len() ==> (#[trigger] r.0@[k])@ == bs[k].0
            &&& forall|k: int| 0 <= k < bs.len() ==> (#[trigger] r.1@[k]) as nat == bs[k].1
        }),
{
    let ghost av = words_view(answers@);
    let mut keys: Vec<Score> = Vec::new();
    let mut counts: Vec<usize> = Vec::new();
    let mut i: usize = 0;
    while i < answers.len()
        invariant
            i <= answers@.len(),
            av == words_view(answers@),
            av.len() == answers@.len(),
            forall|k: int| 0 <= k < av.len() ==> av[k] == (#[trigger] answers@[k])@,
            forall|k: int| 0 <= k < av.len() ==> (#[trigger] av[k]).len() == guess@.len(),
            ({
                let bs = buckets_spec(guess@, av.take(i as int));
                &&& keys@.len() == bs.len()
                &&& counts@.len() == bs.len()
                &&& forall|k: int| 0 <= k < bs.len() ==> (#[trigger] keys@[k])@ == bs[k].0
                &&& forall|k: int| 0 <= k < bs.len() ==> (#[trigger] counts@[k]) as nat == bs[k].1
            }),
        decreases answers@.len() - i,
    {
        let ghost pre = buckets_spec(guess@, av.take(i as int));
        let sc = score(guess, &answers[i]);
        proof {
            assert(av.take(i + 1).drop_last() =~= av.take(i as int));
            assert(av.take(i + 1).last() == av[i as int]);
            lemma_bucket_index(pre, sc@);
            lemma_buckets_shape(guess@, av.take(i as int));
            assert(total_of(counts_of(pre)) == i);
        }
        let ghost j_spec = bucket_index(pre, sc@);
        // find the bucket for this score, if one exists
        let mut j: usize = 0;
        let mut found: bool = false;
        while j < keys.len() && !found
            invariant
                j <= keys@.len(),
                keys@.len() == pre.len(),
                forall|k: int| 0 <= k < pre.len() ==> (#[trigger] keys@[k])@ == pre[k].0,
                !found ==> forall|k: int| 0 <= k < j ==> pre[k].0 != sc@,
                found ==> j < keys@.len() && pre[j as int].0 == sc@ && forall|k: int|
                    0 <= k < j ==> pre[k].0 != sc@,
            decreases keys@.len() - j + (if found {
                0int
            } else {
                1int
            }),
        {
            if scores_equal(&keys[j], &sc) {
                found = true;
            } else {
                j = j + 1;
            }
        }
        if found {
            proof {
                lemma_bucket_index(pre, sc@);
                assert(j_spec == j) by {
                    if j_spec == -1 {
                        assert(pre[j as int].0 != sc@);
                    } else if j_spec < j {
                        assert(pre[j_spec].0 != sc@);
                    } else if j_spec > j {
                        assert(pre[j as int].0 != sc@);
                    }
                }
                lemma_elem_le_total(counts_of(pre), j as int);
                assert(counts_of(pre)[j as int] == pre[j as int].1);
            }
            let c = counts[j];
            counts.set(j, c + 1);
            proof {
                let bs = buckets_spec(guess@, av.take(i + 1));
                assert(bs == pre.update(j as int, (sc@, (pre[j as int].1 + 1) as nat)));
            }
        } else {
            proof {
                lemma_bucket_index(pre, sc@);
                assert(j_spec == -1) by {
                    if j_spec >= 0 {
                        assert(pre[j_spec].0 != sc@);
                    }
                }
            }
            keys.push(sc);
            counts.push(1);
        }
        i = i + 1;
    }
    proof {
        assert(av.take(av.len() as int) =~= av);
    }
    (keys, counts)
}

/// Do the two scores hold the same outcome codes in the same order?
pub fn scores_equal(a: &Score, b: &Score) -> (r: bool)
    ensures
        r == (a@ == b@),
{
    if a.len() != b.len() {
        proof {
            assert(a@.len() != b@.len());
        }
        return false;
    }
    let mut i: usize = 0;
    while i < a.len()
        invariant
            i <= a@.len(),
            a@.len() == b@.len(),
            forall|j: int| 0 <= j < i ==> a@[j] == b@[j],
        decreases a@.len() - i,
    {
        if a[i] != b[i] {
            return false;
        }
        i = i + 1;
    }
    proof {
        assert(a@ =~= b@);
    }
    true
}

} // verus!
