use payment_split::grouped::{by_groups_of_n_payment, WeightProfile};
use payment_split::ledger::{baseline, settle, sum_of, MAX_DAYS, MAX_LIMIT};
use payment_split::random::{perturb, random_payment, transfer, walk, MAX_TRANSFER, WALK_ROUNDS};
use payment_split::request::{group_size, settles, tail_len, validate, PlanError, Strategy};

fn profile(w: &[u32]) -> WeightProfile {
    WeightProfile::new(w.to_vec()).unwrap()
}

fn sum(v: &[u64]) -> u64 {
    v.iter().sum()
}

#[test]
fn random_single_day_keeps_whole_total() {
    assert_eq!(random_payment(1, 10000), vec![10000]);
}

#[test]
fn random_totals_and_lengths() {
    for &(days, limit) in &[(1u64, 1u64), (2, 1), (3, 10000), (7, 12345), (30, 100), (365, 99999999)] {
        for _ in 0..20 {
            let plan = random_payment(days, limit);
            assert_eq!(plan.len() as u64, days);
            assert_eq!(sum(&plan), limit);
        }
    }
}

#[test]
fn random_largest_total() {
    let plan = random_payment(3, MAX_LIMIT);
    assert_eq!(sum(&plan), MAX_LIMIT);
}

#[test]
fn groups_of_two_over_four_days() {
    let plan = by_groups_of_n_payment(4, 10000, 2, &profile(&[1, 1]), &WeightProfile::single());
    assert_eq!(plan, vec![2500, 2500, 2500, 2500]);
    assert_eq!(sum(&plan), 10000);
}

#[test]
fn groups_tail_uses_its_own_profile() {
    // five days in groups of three: the last two days form a group of their own
    let plan = by_groups_of_n_payment(5, 5000, 3, &profile(&[2, 0, 2]), &profile(&[1, 1]));
    assert_eq!(plan, vec![1500, 0, 1500, 1000, 1000]);
    let reused = by_groups_of_n_payment(5, 5000, 3, &profile(&[2, 0, 2]), &profile(&[2, 0]));
    assert_ne!(plan, reused);
}

#[test]
fn groups_round_halves_up() {
    let plan = by_groups_of_n_payment(3, 100, 3, &profile(&[1, 2, 3]), &WeightProfile::single());
    assert_eq!(plan, vec![17, 33, 50]);
}

#[test]
fn groups_excess_taken_from_first_larger_day() {
    // reweighted to [1, 2, 1], one cent over
    let plan = by_groups_of_n_payment(3, 3, 2, &profile(&[1, 3]), &WeightProfile::single());
    assert_eq!(plan, vec![1, 1, 1]);
}

#[test]
fn groups_totals_for_every_group_size() {
    for &(days, limit) in &[(1u64, 1u64), (4, 10000), (5, 5000), (7, 12345), (10, 3), (31, 100000)] {
        for n in 1..=days {
            let full: Vec<u32> = (0..n).map(|i| (i % 3) as u32 + 1).collect();
            let rest = tail_len(days, n);
            let tail = if rest == 0 {
                WeightProfile::single()
            } else {
                WeightProfile::new((0..rest).map(|i| (i % 2) as u32 + 1).collect()).unwrap()
            };
            let plan = by_groups_of_n_payment(days, limit, n, &profile(&full), &tail);
            assert_eq!(plan.len() as u64, days);
            assert_eq!(sum(&plan), limit);
        }
    }
}

#[test]
fn groups_larger_than_days() {
    let plan = by_groups_of_n_payment(2, 100, 5, &profile(&[1, 1, 1, 1, 1]), &profile(&[1, 3]));
    assert_eq!(plan, vec![25, 75]);
}

#[test]
fn groups_are_deterministic() {
    let a = by_groups_of_n_payment(9, 77777, 4, &profile(&[5, 1, 1, 5]), &profile(&[1]));
    let b = by_groups_of_n_payment(9, 77777, 4, &profile(&[5, 1, 1, 5]), &profile(&[1]));
    assert_eq!(a, b);
}

#[test]
fn baseline_spreads_leftover_cents() {
    assert_eq!(baseline(3, 10), vec![4, 3, 3]);
    assert_eq!(baseline(3, 11), vec![4, 4, 3]);
    assert_eq!(baseline(6, 11), vec![2, 2, 2, 2, 2, 1]);
    assert_eq!(baseline(1, 0), vec![0]);
}

#[test]
fn sum_of_adds_entries() {
    assert_eq!(sum_of(&vec![1, 2, 3]), 6);
    assert_eq!(sum_of(&vec![]), 0);
}

#[test]
fn settle_adds_shortfall_to_first_day() {
    let mut plan = vec![1, 2];
    settle(&mut plan, 5);
    assert_eq!(plan, vec![3, 2]);
}

#[test]
fn settle_takes_excess_from_first_larger_day() {
    let mut plan = vec![1, 5, 9];
    settle(&mut plan, 13);
    assert_eq!(plan, vec![1, 3, 9]);
}

#[test]
fn settle_drains_when_no_day_is_larger() {
    let mut plan = vec![1, 1, 1];
    settle(&mut plan, 1);
    assert_eq!(plan, vec![0, 0, 1]);
}

#[test]
fn settle_leaves_balanced_plan() {
    let mut plan = vec![4, 3, 3];
    settle(&mut plan, 10);
    assert_eq!(plan, vec![4, 3, 3]);
}

#[test]
fn transfer_moves_from_larger_day() {
    let mut plan = vec![10, 0];
    assert!(transfer(&mut plan, 4, 0, 1));
    assert_eq!(plan, vec![6, 4]);
}

#[test]
fn transfer_skips_when_day_holds_too_little() {
    let mut plan = vec![4, 0];
    assert!(!transfer(&mut plan, 4, 0, 1));
    assert_eq!(plan, vec![4, 0]);
}

#[test]
fn transfer_to_same_day_keeps_it() {
    let mut plan = vec![10, 0];
    assert!(transfer(&mut plan, 3, 0, 0));
    assert_eq!(plan, vec![10, 0]);
}

#[test]
fn perturb_keeps_total_and_length() {
    let mut plan = vec![100, 200, 300, 400];
    perturb(&mut plan, 50, 1000);
    assert_eq!(plan.len(), 4);
    assert_eq!(sum(&plan), 1000);
}

#[test]
fn validate_accepts_both_modes() {
    let r = validate(10000, 4, 0).unwrap();
    assert_eq!((r.limit, r.days, r.strategy), (10000, 4, Strategy::Random));
    let r = validate(10000, 4, 1).unwrap();
    assert_eq!(r.strategy, Strategy::Groups);
}

#[test]
fn validate_rejects_bad_input() {
    assert_eq!(validate(0, 4, 0), Err(PlanError::NonPositiveLimit));
    assert_eq!(validate(-5, 0, 7), Err(PlanError::NonPositiveLimit));
    assert_eq!(validate(100, 0, 0), Err(PlanError::NonPositiveDays));
    assert_eq!(validate(MAX_LIMIT as i64 + 1, 4, 0), Err(PlanError::LimitTooLarge));
    assert_eq!(validate(100, MAX_DAYS as i64 + 1, 0), Err(PlanError::TooManyDays));
    assert_eq!(validate(100, 4, 2), Err(PlanError::UnknownMode));
    assert_eq!(validate(100, 4, -1), Err(PlanError::UnknownMode));
}

#[test]
fn group_size_must_be_positive() {
    assert_eq!(group_size(0), Err(PlanError::NonPositiveGroupSize));
    assert_eq!(group_size(-2), Err(PlanError::NonPositiveGroupSize));
    assert_eq!(group_size(3), Ok(3));
    assert_eq!(group_size(MAX_DAYS as i64), Ok(MAX_DAYS));
    assert_eq!(group_size(MAX_DAYS as i64 + 1), Err(PlanError::GroupTooLarge));
}

#[test]
fn tail_len_is_days_left_over() {
    assert_eq!(tail_len(5, 3), 2);
    assert_eq!(tail_len(4, 2), 0);
    assert_eq!(tail_len(2, 5), 2);
}

#[test]
fn settles_checks_exact_total() {
    assert!(settles(&vec![4, 3, 3], 10));
    assert!(!settles(&vec![4, 3, 3], 11));
}

#[test]
fn weight_profile_rejects_empty_and_zero() {
    assert!(WeightProfile::new(vec![]).is_none());
    assert!(WeightProfile::new(vec![0, 0]).is_none());
    let p = WeightProfile::new(vec![0, 2]).unwrap();
    assert_eq!(p.len(), 2);
    assert_eq!(p.weights(), &vec![0, 2]);
    assert_eq!(WeightProfile::single().weights(), &vec![1]);
}

#[test]
fn walk_applies_transfers_in_order() {
    let mut plan = vec![10, 0, 0];
    walk(&mut plan, &vec![(4, 0, 1), (3, 1, 2), (2, 2, 2), (5, 1, 0)]);
    assert_eq!(plan, vec![6, 1, 3]);
}

#[test]
fn walk_without_draws_keeps_plan() {
    let mut plan = vec![7, 8];
    walk(&mut plan, &vec![]);
    assert_eq!(plan, vec![7, 8]);
}

#[test]
fn random_walk_settings() {
    assert_eq!(WALK_ROUNDS, 5);
    assert_eq!(MAX_TRANSFER, 400);
}

#[test]
fn groups_reweigh_exact_share() {
    // 14 cents over 5 days is 2.8 cents a day before reweighting
    let plan = by_groups_of_n_payment(5, 14, 3, &profile(&[2, 0, 2]), &profile(&[1, 1]));
    assert_eq!(plan, vec![4, 0, 4, 3, 3]);
}

#[test]
fn groups_blocks_stay_near_their_share() {
    // 11 cents over 6 days: every day rounds 1.83 up to 2, the cent over comes off day 0
    let plan = by_groups_of_n_payment(6, 11, 2, &profile(&[1, 1]), &WeightProfile::single());
    assert_eq!(plan, vec![1, 2, 2, 2, 2, 2]);
}

#[test]
fn random_two_days_keep_total() {
    for _ in 0..50 {
        let plan = random_payment(2, 11);
        assert_eq!(plan.len(), 2);
        assert_eq!(sum(&plan), 11);
    }
}
