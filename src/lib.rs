//! Splitting a total amount, held in whole cents, into daily payments that add
//! up to that total exactly.

pub mod ledger;
pub mod random;
pub mod grouped;
pub mod request;
