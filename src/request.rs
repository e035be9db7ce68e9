//! What a caller asks for: a total, a number of days and a strategy, checked
//! before any plan is made.

use vstd::prelude::*;
use crate::ledger::{total, sum_of, MAX_DAYS, MAX_LIMIT};

verus! {

/// Why a request cannot be planned.
#[derive(Debug, Clone, Copy, PartialEq, Eq, Structural)]
pub enum PlanError {
    /// The total is zero or negative.
    NonPositiveLimit,
    /// The number of days is zero or negative.
    NonPositiveDays,
    /// The total is over `MAX_LIMIT` cents.
    LimitTooLarge,
    /// The number of days is over `MAX_DAYS`.
    TooManyDays,
    /// The strategy selector is neither 0 (random) nor 1 (groups).
    UnknownMode,
    /// The group size is zero or negative.
    NonPositiveGroupSize,
    /// The group size is over `MAX_DAYS`.
    GroupTooLarge,
}

/// How a plan is shaped.
#[derive(Debug, Clone, Copy, PartialEq, Eq, Structural)]
pub enum Strategy {
    /// Random transfers between days.
    Random,
    /// Groups of days reweighted by a profile.
    Groups,
}

/// A checked request: a positive total in cents, a number of days in
/// `1..=MAX_DAYS`, and a strategy.
#[derive(Debug, Clone, Copy, PartialEq, Eq, Structural)]
pub struct Request {
    pub limit: u64,
    pub days: u64,
    pub strategy: Strategy,
}

/// Checks a request of `limit` cents over `days` days, with strategy
/// selector `mode` (0 for random, 1 for groups). The checks come in that
/// order: the total, the days, then the selector.
pub fn validate(limit: i64, days: i64, mode: i64) -> (r: Result<Request, PlanError>)
    ensures
        limit <= 0 ==> r == Err::<Request, PlanError>(PlanError::NonPositiveLimit),
        0 < limit && days <= 0 ==> r == Err::<Request, PlanError>(PlanError::NonPositiveDays),
        0 < limit && 0 < days && limit > MAX_LIMIT ==> r == Err::<Request, PlanError>(
            PlanError::LimitTooLarge,
        ),
        0 < limit <= MAX_LIMIT && 0 < days && days > MAX_DAYS ==> r == Err::<Request, PlanError>(
            PlanError::TooManyDays,
        ),
        0 < limit <= MAX_LIMIT && 0 < days <= MAX_DAYS && mode != 0 && mode != 1 ==> r == Err::<
            Request,
            PlanError,
        >(PlanError::UnknownMode),
        0 < limit <= MAX_LIMIT && 0 < days <= MAX_DAYS && (mode == 0 || mode == 1) ==> r == Ok::<
            Request,
            PlanError,
        >(
            Request {
                limit: limit as u64,
                days: days as u64,
                strategy: if mode == 0 { Strategy::Random } else { Strategy::Groups },
            },
        ),
{
    if limit <= 0 {
        return Err(PlanError::NonPositiveLimit);
    }
    if days <= 0 {
        return Err(PlanError::NonPositiveDays);
    }
    if limit as u64 > MAX_LIMIT {
        return Err(PlanError::LimitTooLarge);
    }
    if days as u64 > MAX_DAYS {
        return Err(PlanError::TooManyDays);
    }
    let strategy = if mode == 0 {
        Strategy::Random
    } else if mode == 1 {
        Strategy::Groups
    } else {
        return Err(PlanError::UnknownMode);
    };
    Ok(Request { limit: limit as u64, days: days as u64, strategy })
}

/// Checks a group size: it must be at least 1 and at most `MAX_DAYS`.
pub fn group_size(n: i64) -> (r: Result<u64, PlanError>)
    ensures
        n <= 0 ==> r == Err::<u64, PlanError>(PlanError::NonPositiveGroupSize),
        n > MAX_DAYS ==> r == Err::<u64, PlanError>(PlanError::GroupTooLarge),
        0 < n <= MAX_DAYS ==> r == Ok::<u64, PlanError>(n as u64),
{
    if n <= 0 {
        Err(PlanError::NonPositiveGroupSize)
    } else if n as u64 > MAX_DAYS {
        Err(PlanError::GroupTooLarge)
    } else {
        Ok(n as u64)
    }
}

/// Number of days left over after the whole groups of `n` days.
pub fn tail_len(days: u64, n: u64) -> (r: u64)
    requires
        n > 0,
    ensures
        r == days % n,
{
    days % n
}

/// Whether the plan totals exactly `limit` cents.
pub fn settles(plan: &Vec<u64>, limit: u64) -> (r: bool)
    ensures
        r == (total(plan@) == limit),
{
    sum_of(plan) == limit as u128
}

} // verus!
