//! A custodial staking pool kept as a state machine without I/O.
//!
//! Every balance-affecting operation of the pool needs a round trip to an
//! asset ledger. The pool itself never talks to the ledger: each operation
//! is cut at its suspension points into functions that validate, say which
//! ledger call has to be made, and take the ledger's reply as a plain value.
//! The caller performs the calls in between.
//!
//! * [`types`]: the values that cross the pool's boundary.
//! * [`subaccount`]: how subaccounts are numbered.
//! * [`ledger`]: account addresses, the fee, and transfer requests.
//! * [`model`], [`sharing`]: the pool and its distributions as mathematics.
//! * [`pool`]: the executable pool, specified against the model.
//! * [`laws`]: what holds across several operations.

pub mod laws;
pub mod ledger;
pub mod model;
pub mod pool;
pub mod sharing;
pub mod subaccount;
pub mod types;

pub use ledger::{get_deposit_address, TransferRequest, Withdrawal};
pub use pool::distribution::{
    proportional_share, Distribution, Purpose, RewardQuery, RewardStart, Stake,
};
pub use pool::Pool;
pub use types::{
    Deposit, DepositArgs, DepositIntention, Identity, LockPeriod, PendingDeposit, StakingError,
    StakingResult, Subaccount, UserDeposits, WithdrawArgs,
};
