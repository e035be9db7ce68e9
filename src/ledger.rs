//! Payment plans as sequences of cents: their total, the uniform baseline in
//! whole cents, and the settling step that brings a reshaped plan back to the
//! requested total.

use vstd::prelude::*;

verus! {

/// Largest total, in cents, that a plan may distribute.
pub const MAX_LIMIT: u64 = 1_000_000_000_000;

/// Largest number of days that a plan may span.
pub const MAX_DAYS: u64 = 1_000_000;

/// Sum of all entries of a plan.
pub open spec fn total(s: Seq<u64>) -> int
    decreases s.len(),
{
    if s.len() == 0 {
        0
    } else {
        total(s.drop_last()) + s.last()
    }
}

/// The uniform split of `limit` over `days` entries in whole cents: every
/// entry holds `limit / days` rounded down, and the first `limit % days`
/// entries hold one cent more, so that each lies within a cent of the exact
/// share.
pub open spec fn baseline_of(days: nat, limit: nat) -> Seq<u64>
    recommends
        days > 0,
{
    Seq::new(
        days,
        |i: int|
            if i < limit % days {
                (limit / days + 1) as u64
            } else {
                (limit / days) as u64
            },
    )
}

pub(crate) proof fn lemma_total_take_next(s: Seq<u64>, i: int)
    requires
        0 <= i < s.len(),
    ensures
        total(s.take(i + 1)) == total(s.take(i)) + s[i],
{
    assert(s.take(i + 1).drop_last() =~= s.take(i));
}

proof fn lemma_total_nonneg(s: Seq<u64>)
    ensures
        0 <= total(s),
    decreases s.len(),
{
    if s.len() > 0 {
        lemma_total_nonneg(s.drop_last());
    }
}

pub proof fn lemma_total_update(s: Seq<u64>, i: int, v: u64)
    requires
        0 <= i < s.len(),
    ensures
        total(s.update(i, v)) == total(s) - s[i] + v,
    decreases s.len(),
{
    let t = s.update(i, v);
    if i == s.len() - 1 {
        assert(t.drop_last() =~= s.drop_last());
    } else {
        assert(t.drop_last() =~= s.drop_last().update(i, v));
        lemma_total_update(s.drop_last(), i, v);
    }
}

/// An entry never exceeds the total of its plan.
pub proof fn lemma_entry_le_total(s: Seq<u64>, i: int)
    requires
        0 <= i < s.len(),
    ensures
        s[i] <= total(s),
    decreases s.len(),
{
    if i == s.len() - 1 {
        lemma_total_nonneg(s.drop_last());
    } else {
        lemma_entry_le_total(s.drop_last(), i);
    }
}

/// A plan whose first `r` entries hold `c + 1` and whose others hold `c`
/// totals `n * c + r`.
proof fn lemma_total_flat(s: Seq<u64>, c: int, r: int)
    requires
        0 <= r <= s.len(),
        forall|i: int| 0 <= i < s.len() ==> s[i] == if i < r { c + 1 } else { c },
    ensures
        total(s) == s.len() * c + r,
    decreases s.len(),
{
    if s.len() == 0 {
    } else if r == s.len() {
        lemma_total_flat(s.drop_last(), c, r - 1);
        assert(s.len() * c == (s.len() - 1) * c + c) by (nonlinear_arith);
    } else {
        lemma_total_flat(s.drop_last(), c, r);
        assert(s.len() * c == (s.len() - 1) * c + c) by (nonlinear_arith);
    }
}

/// The baseline distributes exactly `limit`.
pub proof fn lemma_baseline_total(days: nat, limit: nat)
    requires
        days > 0,
        limit <= MAX_LIMIT,
    ensures
        total(baseline_of(days, limit)) == limit,
{
    let c = limit / days;
    let r = limit % days;
    assert(c <= limit) by (nonlinear_arith)
        requires days > 0, c == limit / days;
    assert(0 <= r < days) by (nonlinear_arith)
        requires days > 0, r == limit % days;
    lemma_total_flat(baseline_of(days, limit), c as int, r as int);
    assert(days * c + r == limit) by (nonlinear_arith)
        requires days > 0, c == limit / days, r == limit % days;
}

/// Every day of the baseline lies within a cent of the exact share
/// `limit / days`: `days` times the day differs from `limit` by less than
/// `days`.
pub proof fn lemma_baseline_near_share(days: nat, limit: nat, i: int)
    requires
        days > 0,
        limit <= MAX_LIMIT,
        0 <= i < days,
    ensures
        limit - days < days * baseline_of(days, limit)[i] < limit + days,
{
    let c = limit / days;
    let r = limit % days;
    assert(c <= limit) by (nonlinear_arith)
        requires days > 0, c == limit / days;
    assert(days * c + r == limit && 0 <= r < days) by (nonlinear_arith)
        requires days > 0, c == limit / days, r == limit % days;
    assert(days * (c + 1) == days * c + days) by (nonlinear_arith);
}

/// Index of the first entry that holds more than `d` cents, or the length of
/// the plan where none does.
pub open spec fn first_above(s: Seq<u64>, d: int) -> int
    decreases s.len(),
{
    if s.len() == 0 {
        0
    } else if s[0] > d {
        0
    } else {
        1 + first_above(s.drop_first(), d)
    }
}

/// Takes `d` cents from the plan, entry by entry from the front, each entry
/// giving up as much as it holds until `d` is paid.
pub open spec fn drained(s: Seq<u64>, d: int) -> Seq<u64>
    decreases s.len(),
{
    if s.len() == 0 {
        s
    } else {
        let t = if s[0] <= d { s[0] as int } else { d };
        seq![(s[0] - t) as u64] + drained(s.drop_first(), d - t)
    }
}

/// The correction that brings a plan back to `limit`. What is owed goes to
/// entry 0. An excess is taken whole from the first entry that holds more
/// than it; where no entry does, it is taken from the entries in order.
pub open spec fn settled(s: Seq<u64>, limit: int) -> Seq<u64> {
    if total(s) <= limit {
        s.update(0, (s[0] + (limit - total(s))) as u64)
    } else if first_above(s, total(s) - limit) < s.len() {
        let i = first_above(s, total(s) - limit);
        s.update(i, (s[i] - (total(s) - limit)) as u64)
    } else {
        drained(s, total(s) - limit)
    }
}

proof fn lemma_total_cons(x: u64, t: Seq<u64>)
    ensures
        total(seq![x] + t) == x + total(t),
    decreases t.len(),
{
    let s = seq![x] + t;
    if t.len() == 0 {
        assert(s.drop_last() =~= Seq::<u64>::empty());
        assert(total(s.drop_last()) == 0);
    } else {
        assert(s.drop_last() =~= seq![x] + t.drop_last());
        lemma_total_cons(x, t.drop_last());
    }
}

proof fn lemma_first_above_range(s: Seq<u64>, d: int)
    ensures
        0 <= first_above(s, d) <= s.len(),
        first_above(s, d) < s.len() ==> s[first_above(s, d)] > d,
    decreases s.len(),
{
    if s.len() > 0 {
        lemma_first_above_range(s.drop_first(), d);
    }
}

proof fn lemma_first_above_at(s: Seq<u64>, d: int, i: int)
    requires
        0 <= i <= s.len(),
        forall|k: int| 0 <= k < i ==> s[k] <= d,
        i < s.len() ==> s[i] > d,
    ensures
        first_above(s, d) == i,
    decreases i,
{
    if i > 0 {
        lemma_first_above_at(s.drop_first(), d, i - 1);
    }
}

proof fn lemma_drained_step(s: Seq<u64>, i: int, d: int)
    requires
        0 <= i < s.len(),
    ensures
        ({
            let t = if s[i] <= d { s[i] as int } else { d };
            drained(s.skip(i), d) == seq![(s[i] - t) as u64] + drained(s.skip(i + 1), d - t)
        }),
{
    assert(s.skip(i).drop_first() =~= s.skip(i + 1));
}

proof fn lemma_drained_total(s: Seq<u64>, d: int)
    requires
        0 <= d <= total(s),
    ensures
        total(drained(s, d)) == total(s) - d,
        drained(s, d).len() == s.len(),
    decreases s.len(),
{
    if s.len() == 0 {
    } else {
        let t = if s[0] <= d { s[0] as int } else { d };
        assert(s =~= seq![s[0]] + s.drop_first());
        lemma_total_cons(s[0], s.drop_first());
        lemma_total_nonneg(s.drop_first());
        lemma_drained_total(s.drop_first(), d - t);
        lemma_total_cons((s[0] - t) as u64, drained(s.drop_first(), d - t));
    }
}

/// The correction distributes exactly `limit`.
pub proof fn lemma_settled_total(s: Seq<u64>, limit: int)
    requires
        s.len() > 0,
        0 <= limit,
        limit <= MAX_LIMIT,
    ensures
        total(settled(s, limit)) == limit,
        settled(s, limit).len() == s.len(),
{
    if total(s) <= limit {
        lemma_entry_le_total(s, 0);
        lemma_total_update(s, 0, (s[0] + (limit - total(s))) as u64);
    } else {
        let d = total(s) - limit;
        let i = first_above(s, d);
        lemma_first_above_range(s, d);
        if i < s.len() {
            lemma_total_update(s, i, (s[i] - d) as u64);
        } else {
            lemma_drained_total(s, d);
        }
    }
}

/// Settling a plan that already totals `limit` leaves it as it is.
pub proof fn lemma_settled_balanced(s: Seq<u64>, limit: int)
    requires
        s.len() > 0,
        total(s) == limit,
    ensures
        settled(s, limit) == s,
{
    assert(settled(s, limit) =~= s);
}

/// Brings the plan back to a total of exactly `limit` cents: a shortfall is
/// added to entry 0; an excess is taken from the first entry that holds more
/// than it, or, where none does, from the entries in order.
pub fn settle(plan: &mut Vec<u64>, limit: u64)
    requires
        old(plan).len() > 0,
        limit <= MAX_LIMIT,
    ensures
        final(plan)@ == settled(old(plan)@, limit as int),
        final(plan)@.len() == old(plan)@.len(),
        total(final(plan)@) == limit,
{
    let ghost s = plan@;
    proof {
        lemma_settled_total(s, limit as int);
    }
    let sum = sum_of(plan);
    if sum <= limit as u128 {
        proof {
            lemma_entry_le_total(s, 0);
        }
        let owed = (limit as u128 - sum) as u64;
        let first = plan[0] + owed;
        plan.set(0, first);
        assert(plan@ =~= settled(s, limit as int));
        return;
    }
    let excess = sum - limit as u128;
    let mut i: usize = 0;
    while i < plan.len()
        invariant
            plan@ == s,
            s == old(plan)@,
            total(settled(s, limit as int)) == limit,
            settled(s, limit as int).len() == s.len(),
            i <= s.len(),
            excess == total(s) - limit,
            forall|k: int| 0 <= k < i ==> s[k] <= excess,
        decreases plan.len() - i,
    {
        if plan[i] as u128 > excess {
            proof {
                lemma_first_above_at(s, excess as int, i as int);
            }
            let v = plan[i] - excess as u64;
            plan.set(i, v);
            assert(first_above(s, total(s) - limit) == i);
            assert(plan@ =~= settled(s, limit as int));
            return;
        }
        i = i + 1;
    }
    proof {
        lemma_first_above_at(s, excess as int, s.len() as int);
    }
    assert(s.skip(0) =~= s);
    assert(plan@.take(0) + drained(s, excess as int) =~= drained(s, excess as int));
    let mut rest: u128 = excess;
    let mut j: usize = 0;
    while j < plan.len()
        invariant
            plan@.len() == s.len(),
            j <= s.len(),
            rest <= excess,
            forall|k: int| j <= k < s.len() ==> plan@[k] == s[k],
            plan@.take(j as int) + drained(s.skip(j as int), rest as int) == drained(s, excess as int),
        decreases plan.len() - j,
    {
        proof {
            lemma_drained_step(s, j as int, rest as int);
            assert(plan@[j as int] == s[j as int]);
        }
        let ghost prev = plan@;
        let have = plan[j];
        let take: u64 = if have as u128 <= rest { have } else { rest as u64 };
        plan.set(j, have - take);
        rest = rest - take as u128;
        proof {
            let tail = drained(s.skip(j + 1), rest as int);
            assert(plan@.take(j + 1) =~= prev.take(j as int) + seq![(have - take) as u64]);
            assert(plan@.take(j + 1) + tail =~= prev.take(j as int) + (seq![
                (have - take) as u64] + tail));
        }
        j = j + 1;
    }
    assert(s.skip(s.len() as int) =~= Seq::<u64>::empty());
    assert(plan@.take(s.len() as int) =~= plan@);
}

/// Sum of the entries of a plan.
pub fn sum_of(plan: &Vec<u64>) -> (r: u128)
    ensures
        r == total(plan@),
{
    let mut acc: u128 = 0;
    let mut i: usize = 0;
    while i < plan.len()
        invariant
            i <= plan.len(),
            acc == total(plan@.take(i as int)),
            acc <= i * 0x1_0000_0000_0000_0000,
        decreases plan.len() - i,
    {
        proof {
            lemma_total_take_next(plan@, i as int);
            assert((i + 1) * 0x1_0000_0000_0000_0000 == i * 0x1_0000_0000_0000_0000
                + 0x1_0000_0000_0000_0000) by (nonlinear_arith);
            assert(i * 0x1_0000_0000_0000_0000 <= usize::MAX * 0x1_0000_0000_0000_0000)
                by (nonlinear_arith) requires i <= usize::MAX;
        }
        acc = acc + plan[i] as u128;
        i = i + 1;
    }
    assert(plan@.take(i as int) =~= plan@);
    acc
}

/// The uniform starting plan: `days` entries of `limit / days` cents rounded
/// down, the first `limit % days` of them with one cent more, so that every
/// entry is within a cent of the exact share and the plan totals `limit`.
pub fn baseline(days: u64, limit: u64) -> (r: Vec<u64>)
    requires
        1 <= days <= MAX_DAYS,
        limit <= MAX_LIMIT,
    ensures
        r@ == baseline_of(days as nat, limit as nat),
        total(r@) == limit,
{
    let per_day = limit / days;
    let extra = limit % days;
    proof {
        assert(per_day <= limit) by (nonlinear_arith)
            requires days > 0, per_day == limit / days;
    }
    let mut plan: Vec<u64> = Vec::new();
    let mut i: u64 = 0;
    while i < days
        invariant
            i <= days <= MAX_DAYS,
            per_day == limit / days,
            per_day <= MAX_LIMIT,
            extra == limit % days,
            plan@.len() == i,
            forall|k: int|
                0 <= k < i ==> plan@[k] == if k < extra { per_day + 1 } else { per_day as int },
        decreases days - i,
    {
        if i < extra {
            plan.push(per_day + 1);
        } else {
            plan.push(per_day);
        }
        i = i + 1;
    }
    proof {
        assert(plan@ =~= baseline_of(days as nat, limit as nat));
        lemma_baseline_total(days as nat, limit as nat);
    }
    plan
}

} // verus!
