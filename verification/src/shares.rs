//! The part of a frame that each worker asks for: its share of the rows in
//! proportion to its capability, rounded to whole rows.
//!
//! A capability is `1000 / t` for a profile time `t`, so the capabilities of
//! some workers are to each other as the products of the profile times of all
//! the *other* workers. Those products are whole numbers, and the shares are
//! computed from them exactly.
use crate::natural::Natural;
use vstd::prelude::*;

verus! {

/// The product of all `times` but the one at `skip`: the weight of worker
/// `skip` among workers with these profile times.
pub open spec fn product_skipping(times: Seq<u64>, skip: int) -> nat
    decreases times.len(),
{
    if times.len() == 0 {
        1
    } else if times.len() - 1 == skip {
        product_skipping(times.drop_last(), skip)
    } else {
        product_skipping(times.drop_last(), skip) * (times.last() as nat)
    }
}

/// The sum of the weights of the first `n` workers.
pub open spec fn weight_sum(times: Seq<u64>, n: nat) -> nat
    decreases n,
{
    if n == 0 {
        0
    } else {
        weight_sum(times, (n - 1) as nat) + product_skipping(times, n - 1)
    }
}

/// The sum of the weights of all workers.
pub open spec fn total_weight(times: Seq<u64>) -> nat {
    weight_sum(times, times.len())
}

/// `height * weight / total`, rounded to the nearest whole number, a half
/// upwards.
pub open spec fn rounded_part(height: u32, weight: nat, total: nat) -> int {
    (2 * height * weight + total) / (2 * total as int)
}

/// The rows that worker `i` asks for: `height` times its capability over the
/// sum of all capabilities, rounded.
pub open spec fn share(height: u32, times: Seq<u64>, i: int) -> int {
    rounded_part(height, product_skipping(times, i), total_weight(times))
}

/// The rows that each worker asks for.
pub open spec fn shares_of(height: u32, times: Seq<u64>) -> Seq<u32> {
    Seq::new(times.len(), |i: int| share(height, times, i) as u32)
}

/// Every profile time is at least one millisecond.
pub open spec fn positive(times: Seq<u64>) -> bool {
    forall|i: int| 0 <= i < times.len() ==> #[trigger] times[i] >= 1
}

/// The product of all `times`.
pub open spec fn product(times: Seq<u64>) -> nat {
    product_skipping(times, -1)
}

/// The weight of a worker times its profile time is the same for every
/// worker, namely the product of all profile times: the weights are to each
/// other as the capabilities.
pub proof fn lemma_weight_is_capability(times: Seq<u64>, i: int)
    requires
        0 <= i < times.len(),
    ensures
        product_skipping(times, i) * times[i] == product(times),
    decreases times.len(),
{
    let front = times.drop_last();
    if i == times.len() - 1 {
        lemma_skip_outside(front, i);
    } else {
        lemma_weight_is_capability(front, i);
        assert(front[i] == times[i]);
        assert((product_skipping(front, i) * (times.last() as nat)) * times[i] == (
        product_skipping(front, i) * times[i]) * (times.last() as nat)) by (nonlinear_arith);
    }
}

/// Skipping a place that is not there skips nothing.
proof fn lemma_skip_outside(times: Seq<u64>, skip: int)
    requires
        skip < 0 || skip >= times.len(),
    ensures
        product_skipping(times, skip) == product(times),
    decreases times.len(),
{
    if times.len() > 0 {
        lemma_skip_outside(times.drop_last(), skip);
    }
}

/// Weights of positive profile times are positive.
pub proof fn lemma_weight_positive(times: Seq<u64>, skip: int)
    requires
        positive(times),
    ensures
        product_skipping(times, skip) >= 1,
    decreases times.len(),
{
    if times.len() > 0 {
        let front = times.drop_last();
        assert(positive(front)) by {
            assert forall|i: int| 0 <= i < front.len() implies #[trigger] front[i] >= 1 by {
                assert(front[i] == times[i]);
            }
        }
        lemma_weight_positive(front, skip);
        assert(times[times.len() - 1] >= 1);
        assert(product_skipping(front, skip) * (times.last() as nat) >= 1) by (nonlinear_arith)
            requires
                product_skipping(front, skip) >= 1,
                times.last() >= 1,
        ;
    }
}

/// No weight is more than the sum of the weights.
pub proof fn lemma_weight_in_sum(times: Seq<u64>, n: nat, i: int)
    requires
        0 <= i < n,
    ensures
        product_skipping(times, i) <= weight_sum(times, n),
    decreases n,
{
    if i < n - 1 {
        lemma_weight_in_sum(times, (n - 1) as nat, i);
    }
}

/// The share of a worker is the nearest whole number to its part of the
/// rows, a half counting upwards, and no more than the frame has rows: with
/// the weight `w` of the worker and the sum `t` of all weights,
/// `share - 1/2 <= height * w / t < share + 1/2`.
pub proof fn lemma_share_is_nearest(height: u32, times: Seq<u64>, i: int)
    requires
        positive(times),
        0 <= i < times.len(),
    ensures
        0 <= share(height, times, i) <= height,
        (2 * share(height, times, i) - 1) * total_weight(times) <= 2 * height * product_skipping(
            times,
            i,
        ),
        2 * height * product_skipping(times, i) < (2 * share(height, times, i) + 1) * total_weight(
            times,
        ),
{
    let w = product_skipping(times, i);
    let t = total_weight(times);
    lemma_weight_positive(times, i);
    lemma_weight_in_sum(times, times.len(), i);
    lemma_rounded_part(height, w, t);
}

/// `rounded_part` is the nearest whole number, a half counting upwards.
pub proof fn lemma_rounded_part(height: u32, weight: nat, total: nat)
    requires
        weight <= total,
        total >= 1,
    ensures
        0 <= rounded_part(height, weight, total) <= height,
        (2 * rounded_part(height, weight, total) - 1) * total <= 2 * height * weight,
        2 * height * weight < (2 * rounded_part(height, weight, total) + 1) * total,
{
    let n = 2 * height * weight + total;
    let d = 2 * total as int;
    let q = n / d;
    assert(q * d <= n < (q + 1) * d && q >= 0) by (nonlinear_arith)
        requires
            q == n / d,
            d > 0,
            n >= 0,
    ;
    assert(q <= height) by (nonlinear_arith)
        requires
            q * d <= n,
            n == 2 * height * weight + total,
            d == 2 * total,
            weight <= total,
            total >= 1,
            height >= 0,
            q >= 0,
    ;
    assert((2 * q - 1) * total <= 2 * height * weight && 2 * height * weight < (2 * q + 1) * total)
        by (nonlinear_arith)
        requires
            q * d <= n < (q + 1) * d,
            n == 2 * height * weight + total,
            d == 2 * total,
    ;
}

/// The product of all `times`.
fn product_of(times: &Vec<u64>) -> (all: Natural)
    ensures
        all@ == product(times@),
{
    let n: usize = times.len();
    let mut all = Natural::from_u64(1);
    let mut k: usize = 0;
    assert(times@.take(0) =~= Seq::<u64>::empty());
    while k < n
        invariant
            n == times@.len(),
            0 <= k <= n,
            all@ == product(times@.take(k as int)),
        decreases n - k,
    {
        proof {
            assert(times@.take(k + 1).drop_last() =~= times@.take(k as int));
            assert(times@.take(k + 1).last() == times@[k as int]);
        }
        all = all.times_small(times[k]);
        k += 1;
    }
    assert(times@.take(n as int) =~= times@);
    all
}

/// `height * weight / total`, rounded to the nearest whole number, a half
/// upwards.
pub fn rounded_part_of(height: u32, weight: &Natural, total: &Natural) -> (part: u32)
    requires
        weight@ <= total@,
        total@ >= 1,
    ensures
        part == rounded_part(height, weight@, total@),
{
    let target = weight.times_small(2 * (height as u64)).plus(total);
    let mut lo: u64 = 0;
    let mut hi: u64 = height as u64 + 1;
    proof {
        assert(2 * lo * total@ <= target@) by (nonlinear_arith)
            requires
                lo == 0,
                target@ >= 0,
        ;
        assert(target@ < 2 * hi * total@) by (nonlinear_arith)
            requires
                target@ == weight@ * (2 * height) + total@,
                hi == height + 1,
                weight@ <= total@,
                total@ >= 1,
        ;
    }
    while hi - lo > 1
        invariant
            lo < hi <= height + 1,
            2 * lo * total@ <= target@ < 2 * hi * total@,
        decreases hi - lo,
    {
        let mid: u64 = lo + (hi - lo) / 2;
        let reached = total.times_small(2 * mid);
        proof {
            assert(total@ * (2 * mid) == 2 * mid * total@) by (nonlinear_arith);
        }
        if reached.at_most(&target) {
            lo = mid;
        } else {
            hi = mid;
        }
    }
    proof {
        let d = 2 * total@ as int;
        assert(target@ as int / d == lo) by (nonlinear_arith)
            requires
                2 * lo * total@ <= target@ < 2 * (lo + 1) * total@,
                d == 2 * total@,
                d > 0,
        ;
        assert(target@ == 2 * height * weight@ + total@) by (nonlinear_arith)
            requires
                target@ == weight@ * (2 * height) + total@,
        ;
    }
    lo as u32
}

/// The rows that each worker asks for, for workers with these profile times:
/// the part of `height` that is to the whole as the capability of the worker,
/// `1000` over its profile time, is to the sum of all capabilities, rounded to
/// whole rows.
pub fn proportional_shares(height: u32, times: &Vec<u64>) -> (shares: Vec<u32>)
    requires
        positive(times@),
    ensures
        shares@ == shares_of(height, times@),
{
    let n: usize = times.len();
    let all = product_of(times);
    let mut weights: Vec<Natural> = Vec::new();
    let mut total = Natural::from_u64(0);
    let mut i: usize = 0;
    while i < n
        invariant
            n == times@.len(),
            0 <= i <= n,
            positive(times@),
            all@ == product(times@),
            weights@.len() == i,
            forall|k: int| 0 <= k < i ==> (#[trigger] weights@[k])@ == product_skipping(times@, k),
            total@ == weight_sum(times@, i as nat),
        decreases n - i,
    {
        let weight = all.divided_by_small(times[i]);
        proof {
            let w = product_skipping(times@, i as int);
            let t = times@[i as int] as nat;
            lemma_weight_is_capability(times@, i as int);
            assert((w * t) / t == w) by (nonlinear_arith)
                requires
                    t >= 1,
            ;
        }
        total = total.plus(&weight);
        weights.push(weight);
        i += 1;
    }
    let mut shares: Vec<u32> = Vec::new();
    let mut j: usize = 0;
    while j < n
        invariant
            n == times@.len(),
            0 <= j <= n,
            positive(times@),
            weights@.len() == n,
            forall|k: int| 0 <= k < n ==> (#[trigger] weights@[k])@ == product_skipping(times@, k),
            total@ == total_weight(times@),
            shares@.len() == j,
            forall|k: int| 0 <= k < j ==> #[trigger] shares@[k] == share(height, times@, k) as u32,
        decreases n - j,
    {
        proof {
            lemma_weight_positive(times@, j as int);
            lemma_weight_in_sum(times@, n as nat, j as int);
            lemma_rounded_part(height, product_skipping(times@, j as int), total_weight(times@));
        }
        let part = rounded_part_of(height, &weights[j], &total);
        shares.push(part);
        j += 1;
    }
    assert(shares@ =~= shares_of(height, times@));
    shares
}

} // verus!
