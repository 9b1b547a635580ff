//! Staking ledger and vote delegation for distinguishable tokens.
//!
//! Accounts stake tokens with the contract, which counts them as voting
//! power according to per-token weights; stakers delegate that power to
//! other accounts, subject to a cooldown, and withdraw in two phases: the
//! stake is debited at once and credited back if the transfer fails.

pub mod account_id;
pub mod contract;
pub mod table;
pub mod user;

pub use contract::{Contract, GovernanceCall, StakingError, TransferResult, Withdrawal};
pub use user::User;
