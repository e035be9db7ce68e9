//! The grouping strategy: the days are cut into consecutive groups of `n`,
//! and each day's exact share of the total is reshaped by a weight profile,
//! so that within a group a day receives the group's share in proportion to
//! its weight.

use vstd::prelude::*;
use vstd::arithmetic::div_mod::{
    lemma_div_is_ordered, lemma_div_by_multiple, lemma_fundamental_div_mod, lemma_mod_pos_bound,
    lemma_mod_multiples_vanish, lemma_small_mod,
};
use vstd::arithmetic::mul::lemma_mul_upper_bound;
use crate::ledger::{settle, settled, total, lemma_total_take_next, MAX_DAYS, MAX_LIMIT};

verus! {

/// Sum of a sequence of weights.
pub open spec fn weight_total(w: Seq<u32>) -> int
    decreases w.len(),
{
    if w.len() == 0 {
        0
    } else {
        weight_total(w.drop_last()) + w.last()
    }
}

/// The relative weights of the days of one group. A day's share of its group
/// is its weight over the sum of the weights, which is never zero.
pub struct WeightProfile {
    weights: Vec<u32>,
}

impl View for WeightProfile {
    type V = Seq<u32>;

    closed spec fn view(&self) -> Seq<u32> {
        self.weights@
    }
}

impl WeightProfile {
    #[verifier::type_invariant]
    spec fn inv(self) -> bool {
        1 <= self.weights@.len() <= MAX_DAYS && weight_total(self.weights@) > 0
    }

    /// A profile over the given weights, where there is at least one, at most
    /// `MAX_DAYS`, and not all of them are zero.
    pub fn new(weights: Vec<u32>) -> (r: Option<WeightProfile>)
        ensures
            r is Some <==> (1 <= weights@.len() <= MAX_DAYS && weight_total(weights@) > 0),
            r matches Some(p) ==> p@ == weights@,
    {
        if weights.len() == 0 || weights.len() as u64 > MAX_DAYS {
            return None;
        }
        let sum = sum_weights(&weights);
        if sum == 0 {
            None
        } else {
            Some(WeightProfile { weights })
        }
    }

    /// The profile of a single day, which takes its whole group.
    pub fn single() -> (r: WeightProfile)
        ensures
            r@ == seq![1u32],
    {
        let weights: Vec<u32> = vec![1];
        proof {
            assert(weights@.drop_last().len() == 0);
            assert(weight_total(weights@.drop_last()) == 0);
        }
        WeightProfile { weights }
    }

    /// Number of days the profile spans.
    pub fn len(&self) -> (r: usize)
        ensures
            r == self@.len(),
    {
        self.weights.len()
    }

    /// The weights, in order of the days.
    pub fn weights(&self) -> (r: &Vec<u32>)
        ensures
            r@ == self@,
    {
        &self.weights
    }
}

proof fn lemma_weight_total_take_next(w: Seq<u32>, i: int)
    requires
        0 <= i < w.len(),
    ensures
        weight_total(w.take(i + 1)) == weight_total(w.take(i)) + w[i],
{
    assert(w.take(i + 1).drop_last() =~= w.take(i));
}

/// A weight never exceeds the sum of its sequence.
proof fn lemma_weight_le_total(w: Seq<u32>, i: int)
    requires
        0 <= i < w.len(),
    ensures
        0 <= w[i] <= weight_total(w),
        0 <= weight_total(w),
    decreases w.len(),
{
    lemma_weight_total_bound(w.drop_last());
    if i < w.len() - 1 {
        lemma_weight_le_total(w.drop_last(), i);
    }
}

proof fn lemma_weight_total_bound(w: Seq<u32>)
    ensures
        0 <= weight_total(w) <= w.len() * 0x1_0000_0000,
    decreases w.len(),
{
    if w.len() > 0 {
        lemma_weight_total_bound(w.drop_last());
    }
}

/// Sum of the weights.
fn sum_weights(w: &Vec<u32>) -> (r: u64)
    requires
        w@.len() <= MAX_DAYS,
    ensures
        r == weight_total(w@),
{
    let mut acc: u64 = 0;
    let mut i: usize = 0;
    while i < w.len()
        invariant
            i <= w@.len() <= MAX_DAYS,
            acc == weight_total(w@.take(i as int)),
            acc <= i * 0x1_0000_0000,
        decreases w.len() - i,
    {
        proof {
            lemma_weight_total_take_next(w@, i as int);
        }
        acc = acc + w[i] as u64;
        i = i + 1;
    }
    assert(w@.take(i as int) =~= w@);
    acc
}

/// `x * g * w / d` rounded to the nearest cent, halves upwards.
pub open spec fn weighed(x: int, g: int, w: int, d: int) -> int {
    (2 * (x * g * w) + d) / (2 * d)
}

/// A reweighted day is its exact share `x * g * w / d` rounded to the
/// nearest cent: it lies within half a cent of it, and a share halfway
/// between two cents goes to the upper one.
pub proof fn lemma_weighed_nearest(x: int, g: int, w: int, d: int)
    requires
        0 <= x,
        0 <= g,
        0 <= w,
        0 < d,
    ensures
        2 * d * weighed(x, g, w, d) - d <= 2 * (x * g * w),
        2 * (x * g * w) < 2 * d * weighed(x, g, w, d) + d,
{
    let a = 2 * (x * g * w) + d;
    lemma_fundamental_div_mod(a, 2 * d);
    lemma_mod_pos_bound(a, 2 * d);
    assert(0 <= x * g * w) by (nonlinear_arith) requires 0 <= x, 0 <= g, 0 <= w;
}

/// Number of leading days that fall in whole groups of `n`.
pub open spec fn whole_groups_len(len: int, n: int) -> int {
    len / n * n
}

/// Each day's exact share `limit / days`, reweighted and rounded to the
/// nearest cent: a day of the whole groups of `n` by the profile `full`
/// scaled by `n`, a day left over by the profile `tail`, which spans exactly
/// those days, scaled by their number.
pub open spec fn shaped(days: int, limit: int, n: int, full: Seq<u32>, tail: Seq<u32>) -> Seq<u64> {
    let whole = whole_groups_len(days, n);
    Seq::new(
        days as nat,
        |j: int|
            if j < whole {
                weighed(limit, n, full[j % n] as int, days * weight_total(full)) as u64
            } else {
                weighed(limit, days - whole, tail[j - whole] as int, days * weight_total(tail))
                    as u64
            },
    )
}

/// The plan of the grouping strategy: the reweighted shares, settled back to
/// `limit`.
pub open spec fn grouped_plan(days: nat, limit: nat, full: Seq<u32>, tail: Seq<u32>) -> Seq<u64> {
    settled(shaped(days as int, limit as int, full.len() as int, full, tail), limit as int)
}

/// The grouping strategy depends on its inputs alone: plans made from the
/// same days, total and profiles are one and the same plan.
pub proof fn lemma_groups_deterministic(
    days: nat,
    limit: nat,
    full: Seq<u32>,
    tail: Seq<u32>,
    a: Seq<u64>,
    b: Seq<u64>,
)
    requires
        a == grouped_plan(days, limit, full, tail),
        b == grouped_plan(days, limit, full, tail),
    ensures
        a == b,
{
}

proof fn lemma_block_prefix(block: Seq<u64>, full: Seq<u32>, limit: int, n: int, d: int, k: int)
    requires
        0 <= k <= block.len(),
        block.len() == full.len() == n,
        0 < d,
        0 <= limit,
        forall|i: int| 0 <= i < n ==> block[i] == weighed(limit, n, full[i] as int, d),
    ensures
        2 * d * total(block.take(k)) - k * d <= 2 * limit * n * weight_total(full.take(k)),
        2 * limit * n * weight_total(full.take(k)) <= 2 * d * total(block.take(k)) + k * d,
    decreases k,
{
    if k == 0 {
        assert(block.take(0) =~= Seq::<u64>::empty());
        assert(full.take(0) =~= Seq::<u32>::empty());
    } else {
        lemma_block_prefix(block, full, limit, n, d, k - 1);
        lemma_total_take_next(block, k - 1);
        lemma_weight_total_take_next(full, k - 1);
        let w = full[k - 1] as int;
        lemma_weighed_nearest(limit, n, w, d);
        let p = total(block.take(k - 1));
        let q = weight_total(full.take(k - 1));
        let v = block[k - 1] as int;
        assert(2 * limit * n * (q + w) == 2 * limit * n * q + 2 * (limit * n * w))
            by (nonlinear_arith);
        assert(2 * d * (p + v) == 2 * d * p + 2 * d * v) by (nonlinear_arith);
        assert(k * d == (k - 1) * d + d) by (nonlinear_arith);
    }
}

/// Before the plan is settled, each whole group of `n` days holds its exact
/// share `n * limit / days` up to rounding: the group's total lies within
/// half a cent per day of it.
pub proof fn lemma_whole_group_near_share(
    days: nat,
    limit: nat,
    full: Seq<u32>,
    tail: Seq<u32>,
    b: int,
)
    requires
        1 <= days <= MAX_DAYS,
        limit <= MAX_LIMIT,
        1 <= full.len(),
        weight_total(full) > 0,
        0 <= b,
        (b + 1) * full.len() <= days,
    ensures
        ({
            let n = full.len() as int;
            let group = shaped(days as int, limit as int, n, full, tail).subrange(b * n, b * n + n);
            &&& 2 * days * total(group) - n * days <= 2 * n * limit
            &&& 2 * n * limit <= 2 * days * total(group) + n * days
        }),
{
    let n = full.len() as int;
    let v = shaped(days as int, limit as int, n, full, tail);
    let group = v.subrange(b * n, b * n + n);
    let wt = weight_total(full);
    let d = days * wt;
    lemma_weight_total_bound(full);
    assert(n <= days) by (nonlinear_arith) requires (b + 1) * n <= days, b >= 0, n >= 1;
    assert(wt <= MAX_DAYS * 0x1_0000_0000) by (nonlinear_arith)
        requires wt <= n * 0x1_0000_0000, n <= days, days <= MAX_DAYS;
    lemma_fundamental_div_mod(days as int, n);
    lemma_mod_pos_bound(days as int, n);
    let q = days as int / n;
    let r = days as int % n;
    assert((b + 1) * n <= q * n) by (nonlinear_arith)
        requires (b + 1) * n <= n * q + r, r < n, n >= 1, b >= 0;
    assert(0 <= b * n) by (nonlinear_arith) requires b >= 0, n >= 1;
    assert(b * n + n == (b + 1) * n) by (nonlinear_arith);
    assert(group.len() == n);
    assert forall|i: int| 0 <= i < n implies group[i] == weighed(
        limit as int,
        n,
        full[i] as int,
        d,
    ) by {
        lemma_mod_multiples_vanish(b, i, n);
        lemma_small_mod(i as nat, n as nat);
        assert(n * b + i == b * n + i) by (nonlinear_arith);
        assert(b * n + i < q * n) by (nonlinear_arith) requires (b + 1) * n <= q * n, i < n;
        lemma_weight_le_total(full, i);
        lemma_weighed_bound(limit as int, n, full[i] as int, wt, days as int);
        let j = b * n + i;
        assert(group[i] == v[j]);
        assert(j % n == i);
        assert(j < whole_groups_len(days as int, n));
        assert(v[j] == weighed(limit as int, n, full[j % n] as int, d) as u64);
    }
    assert(d > 0) by (nonlinear_arith) requires d == days * wt, days >= 1, wt > 0;
    lemma_block_prefix(group, full, limit as int, n, d, n);
    assert(group.take(n) =~= group);
    assert(full.take(n) =~= full);
    let t = total(group);
    assert(wt * (2 * days * t - n * days) <= wt * (2 * n * limit)) by (nonlinear_arith)
        requires 2 * d * t - n * d <= 2 * limit * n * wt, d == days * wt;
    assert(wt * (2 * n * limit) <= wt * (2 * days * t + n * days)) by (nonlinear_arith)
        requires 2 * limit * n * wt <= 2 * d * t + n * d, d == days * wt;
    assert(2 * days * t - n * days <= 2 * n * limit) by (nonlinear_arith)
        requires wt * (2 * days * t - n * days) <= wt * (2 * n * limit), wt > 0;
    assert(2 * n * limit <= 2 * days * t + n * days) by (nonlinear_arith)
        requires wt * (2 * n * limit) <= wt * (2 * days * t + n * days), wt > 0;
}

proof fn lemma_weighed_bound(x: int, g: int, w: int, wt: int, days: int)
    requires
        0 <= x <= MAX_LIMIT,
        1 <= g <= days <= MAX_DAYS,
        0 <= w <= wt,
        0 < wt <= MAX_DAYS * 0x1_0000_0000,
    ensures
        0 <= x * g <= 1_000_000_000_000_000_000,
        0 <= x * g * w <= 4_294_967_296_000_000_000_000_000_000_000_000,
        0 < days * wt <= 4_294_967_296_000_000_000_000,
        0 <= weighed(x, g, w, days * wt) <= x + 1,
{
    lemma_mul_upper_bound(x, MAX_LIMIT as int, g, MAX_DAYS as int);
    lemma_mul_upper_bound(days, MAX_DAYS as int, wt, MAX_DAYS * 0x1_0000_0000);
    lemma_mul_upper_bound(g, days, w, wt);
    let xg = x * g;
    let gw = g * w;
    let d = days * wt;
    assert(xg >= 0 && gw >= 0 && d > 0) by (nonlinear_arith)
        requires x >= 0, g >= 1, w >= 0, days >= 1, wt > 0, xg == x * g, gw == g * w, d == days * wt;
    lemma_mul_upper_bound(xg, 1_000_000_000_000_000_000, w, 4_294_967_296_000_000);
    assert(x * g * w == x * gw) by (nonlinear_arith) requires gw == g * w;
    assert(x * gw <= x * d) by (nonlinear_arith) requires x >= 0, gw <= d;
    assert(2 * (x * gw) + d <= (x + 1) * (2 * d)) by (nonlinear_arith)
        requires x >= 0, x * gw <= x * d, d > 0;
    assert(0 <= x * gw) by (nonlinear_arith) requires x >= 0, gw >= 0;
    lemma_div_is_ordered(2 * (x * gw) + d, (x + 1) * (2 * d), 2 * d);
    lemma_div_by_multiple(x + 1, 2 * d);
    lemma_div_is_ordered(0, 2 * (x * gw) + d, 2 * d);
}

/// `x * g * w / (days * wt)` rounded to the nearest cent, halves upwards.
fn weigh(x: u64, g: u64, w: u32, wt: u64, days: u64) -> (r: u64)
    requires
        x <= MAX_LIMIT,
        1 <= g <= days <= MAX_DAYS,
        w <= wt,
        0 < wt <= MAX_DAYS * 0x1_0000_0000,
    ensures
        r == weighed(x as int, g as int, w as int, days * wt),
{
    proof {
        lemma_weighed_bound(x as int, g as int, w as int, wt as int, days as int);
    }
    let d: u128 = days as u128 * wt as u128;
    let xg: u128 = x as u128 * g as u128;
    let num: u128 = 2 * (xg * w as u128) + d;
    (num / (2 * d)) as u64
}

/// Splits `limit` cents over `days` days in groups of `n`. Each day's exact
/// share `limit / days` is reweighted: a day of a whole group of `n` days by
/// the profile `full`, scaled by `n`; a day left over by the profile `tail`,
/// which spans the days left over, scaled by their number. Each reweighted
/// day is rounded to the nearest cent, and the plan is then settled back to
/// `limit`, which it totals exactly.
pub fn by_groups_of_n_payment(
    days: u64,
    limit: u64,
    n: u64,
    full: &WeightProfile,
    tail: &WeightProfile,
) -> (r: Vec<u64>)
    requires
        1 <= days <= MAX_DAYS,
        limit <= MAX_LIMIT,
        full@.len() == n,
        days % n != 0 ==> tail@.len() == days % n,
    ensures
        r@ == grouped_plan(days as nat, limit as nat, full@, tail@),
        r@.len() == days,
        total(r@) == limit,
{
    proof {
        use_type_invariant(full);
        use_type_invariant(tail);
        lemma_weight_total_bound(full@);
        lemma_weight_total_bound(tail@);
        lemma_fundamental_div_mod(days as int, n as int);
        lemma_mod_pos_bound(days as int, n as int);
        let q = days as int / n as int;
        assert(q * n == n * q) by (nonlinear_arith);
        assert(q >= 0) by (nonlinear_arith) requires q == days as int / n as int, n > 0, days >= 0;
        assert(q * n > 0 ==> n <= q * n) by (nonlinear_arith) requires q >= 0, n > 0;
    }
    let whole = days / n * n;
    let full_total = sum_weights(&full.weights);
    let tail_total = sum_weights(&tail.weights);
    let ghost target = shaped(days as int, limit as int, n as int, full@, tail@);
    let mut plan: Vec<u64> = Vec::new();
    let mut j: u64 = 0;
    while j < days
        invariant
            j <= days,
            1 <= days <= MAX_DAYS,
            limit <= MAX_LIMIT,
            1 <= n <= MAX_DAYS,
            full@.len() == n,
            days % n != 0 ==> tail@.len() == days % n,
            whole == whole_groups_len(days as int, n as int),
            whole + days % n == days,
            whole > 0 ==> n <= days,
            full_total == weight_total(full@),
            tail_total == weight_total(tail@),
            0 < full_total <= MAX_DAYS * 0x1_0000_0000,
            0 < tail_total <= MAX_DAYS * 0x1_0000_0000,
            target == shaped(days as int, limit as int, n as int, full@, tail@),
            plan@.len() == j,
            forall|k: int| 0 <= k < j ==> plan@[k] == target[k],
        decreases days - j,
    {
        let v = if j < whole {
            proof {
                lemma_mod_pos_bound(j as int, n as int);
                lemma_weight_le_total(full@, (j % n) as int);
            }
            weigh(limit, n, full.weights[(j % n) as usize], full_total, days)
        } else {
            proof {
                lemma_weight_le_total(tail@, (j - whole) as int);
            }
            weigh(limit, days - whole, tail.weights[(j - whole) as usize], tail_total, days)
        };
        plan.push(v);
        j = j + 1;
    }
    assert(plan@ =~= target);
    settle(&mut plan, limit);
    plan
}

} // verus!
