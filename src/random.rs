//! The random strategy: the baseline is reshaped by a walk of random
//! transfers between days, each of which keeps the total and moves no more
//! than the paying day holds.

use rand::Rng;
use vstd::prelude::*;
use crate::ledger::{baseline, baseline_of, total, lemma_total_update, lemma_entry_le_total, MAX_DAYS, MAX_LIMIT};

verus! {

/// Rounds of the walk; each round makes as many transfers as the plan has days.
pub const WALK_ROUNDS: u64 = 5;

/// Every transfer of the walk moves fewer cents than this.
pub const MAX_TRANSFER: u64 = 400;

/// Relies on rand::thread_rng and rand::Rng::gen_range: a value drawn from
/// `0..bound`. gen_range panics on an empty range, which `requires` leaves out.
#[verifier::external_body]
fn draw_below(bound: u64) -> (r: u64)
    requires
        bound > 0,
    ensures
        r < bound,
{
    rand::thread_rng().gen_range(0..bound)
}

/// The plan after one transfer of `amount` cents from day `from` to day `to`:
/// it takes place only where day `from` holds more than `amount`.
pub open spec fn transferred(s: Seq<u64>, amount: int, from: int, to: int) -> Seq<u64> {
    if s[from] > amount {
        let paid = s.update(from, (s[from] - amount) as u64);
        paid.update(to, (paid[to] + amount) as u64)
    } else {
        s
    }
}

/// Moves `amount` cents from day `from` to day `to` where day `from` holds more
/// than that, and returns whether it did. The total is kept, and no day ever
/// gives more than it holds.
pub fn transfer(plan: &mut Vec<u64>, amount: u64, from: usize, to: usize) -> (moved: bool)
    requires
        from < old(plan).len(),
        to < old(plan).len(),
        total(old(plan)@) <= MAX_LIMIT,
    ensures
        moved == (old(plan)@[from as int] > amount),
        final(plan)@ == transferred(old(plan)@, amount as int, from as int, to as int),
        total(final(plan)@) == total(old(plan)@),
{
    let ghost s = plan@;
    if plan[from] > amount {
        let paid = plan[from] - amount;
        plan.set(from, paid);
        proof {
            lemma_total_update(s, from as int, paid);
            lemma_entry_le_total(plan@, to as int);
        }
        let ghost mid = plan@;
        let got = plan[to] + amount;
        plan.set(to, got);
        proof {
            lemma_total_update(mid, to as int, got);
        }
        true
    } else {
        false
    }
}

/// The plan after the transfers `d`, in order; each is an amount in cents, the
/// paying day and the receiving day.
pub open spec fn walked(s: Seq<u64>, d: Seq<(u64, usize, usize)>) -> Seq<u64>
    decreases d.len(),
{
    if d.len() == 0 {
        s
    } else {
        let (amount, from, to) = d.last();
        transferred(walked(s, d.drop_last()), amount as int, from as int, to as int)
    }
}

/// Transfers that each move fewer than `max_transfer` cents between days of a
/// plan of `len` days.
pub open spec fn valid_draws(d: Seq<(u64, usize, usize)>, len: int, max_transfer: int) -> bool {
    forall|i: int|
        0 <= i < d.len() ==> {
            let (amount, from, to) = #[trigger] d[i];
            amount < max_transfer && from < len && to < len
        }
}

/// Applies the transfers `draws` to the plan in order, each as `transfer`
/// does. The plan keeps its length and its total.
pub fn walk(plan: &mut Vec<u64>, draws: &Vec<(u64, usize, usize)>)
    requires
        valid_draws(draws@, old(plan)@.len() as int, u64::MAX as int + 1),
        total(old(plan)@) <= MAX_LIMIT,
    ensures
        final(plan)@ == walked(old(plan)@, draws@),
        final(plan)@.len() == old(plan)@.len(),
        total(final(plan)@) == total(old(plan)@),
{
    let ghost s = plan@;
    let mut i: usize = 0;
    while i < draws.len()
        invariant
            i <= draws@.len(),
            valid_draws(draws@, s.len() as int, u64::MAX as int + 1),
            plan@ == walked(s, draws@.take(i as int)),
            plan@.len() == s.len(),
            total(plan@) == total(s),
            total(s) <= MAX_LIMIT,
        decreases draws.len() - i,
    {
        let (amount, from, to) = draws[i];
        proof {
            assert(draws@.take(i + 1).drop_last() =~= draws@.take(i as int));
            assert(draws@.take(i + 1).last() == draws@[i as int]);
        }
        transfer(plan, amount, from, to);
        i = i + 1;
    }
    assert(draws@.take(i as int) =~= draws@);
}

/// Runs `rounds` rounds of random transfers over the plan, as many per round
/// as the plan has days, each of fewer than `max_transfer` cents between two
/// days drawn at random. Whatever is drawn, the plan is the old one walked
/// by such transfers, so it keeps its length and its total.
pub fn perturb(plan: &mut Vec<u64>, rounds: u64, max_transfer: u64)
    requires
        old(plan).len() > 0,
        max_transfer > 0,
        total(old(plan)@) <= MAX_LIMIT,
    ensures
        exists|d: Seq<(u64, usize, usize)>|
            {
                &&& valid_draws(d, old(plan)@.len() as int, max_transfer as int)
                &&& d.len() == rounds * old(plan)@.len()
                &&& final(plan)@ == walked(old(plan)@, d)
            },
        final(plan)@.len() == old(plan)@.len(),
        total(final(plan)@) == total(old(plan)@),
{
    let len = plan.len();
    let mut draws: Vec<(u64, usize, usize)> = Vec::new();
    let mut round: u64 = 0;
    while round < rounds
        invariant
            round <= rounds,
            plan@.len() == len,
            len > 0,
            max_transfer > 0,
            draws@.len() == round * len,
            valid_draws(draws@, len as int, max_transfer as int),
        decreases rounds - round,
    {
        let mut step: usize = 0;
        while step < len
            invariant
                step <= len,
                plan@.len() == len,
                len > 0,
                max_transfer > 0,
                draws@.len() == round * len + step,
                valid_draws(draws@, len as int, max_transfer as int),
            decreases len - step,
        {
            let amount = draw_below(max_transfer);
            let from = draw_below(len as u64) as usize;
            let to = draw_below(len as u64) as usize;
            draws.push((amount, from, to));
            step = step + 1;
        }
        assert((round + 1) * len == round * len + len) by (nonlinear_arith);
        round = round + 1;
    }
    walk(plan, &draws);
}

/// Splits `limit` cents over `days` days: the baseline, in which every day
/// lies within a cent of `limit / days`, reshaped by `WALK_ROUNDS` rounds of random transfers of under `MAX_TRANSFER` cents.
/// Every day holds whole cents and the walk keeps the total, so the plan
/// totals `limit` exactly.
pub fn random_payment(days: u64, limit: u64) -> (r: Vec<u64>)
    requires
        1 <= days <= MAX_DAYS,
        limit <= MAX_LIMIT,
    ensures
        exists|d: Seq<(u64, usize, usize)>|
            {
                &&& valid_draws(d, days as int, MAX_TRANSFER as int)
                &&& d.len() == WALK_ROUNDS * days
                &&& r@ == walked(baseline_of(days as nat, limit as nat), d)
            },
        r@.len() == days,
        total(r@) == limit,
{
    let mut plan = baseline(days, limit);
    perturb(&mut plan, WALK_ROUNDS, MAX_TRANSFER);
    plan
}

} // verus!
