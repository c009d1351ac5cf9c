//! The values that cross the pool's boundary.

use vstd::prelude::*;

verus! {

/// Seconds in one day.
pub const SECONDS_PER_DAY: u64 = 86_400;

/// The longest byte string that names an identity.
pub const MAX_IDENTITY_BYTES: usize = 29;

/// A 32-byte discriminator that, together with an identity, names one
/// account on the ledger.
pub type Subaccount = [u8; 32];

/// Whether two subaccounts hold the same bytes.
pub fn same_subaccount(a: &Subaccount, b: &Subaccount) -> (same: bool)
    ensures
        same == (a@ == b@),
{
    let mut i: usize = 0;
    while i < 32
        invariant
            i <= 32,
            forall|k: int| 0 <= k < i ==> a@[k] == b@[k],
        decreases 32 - i,
    {
        if a[i] != b[i] {
            return false;
        }
        i = i + 1;
    }
    assert(a@ =~= b@);
    true
}

/// The caller-authentication token attached to every operation: an opaque
/// byte string of at most [`MAX_IDENTITY_BYTES`] bytes.
#[derive(Debug)]
pub struct Identity {
    bytes: Vec<u8>,
}

impl View for Identity {
    type V = Seq<u8>;

    closed spec fn view(&self) -> Seq<u8> {
        self.bytes@
    }
}

impl Clone for Identity {
    fn clone(&self) -> (copy: Self)
        ensures
            copy@ == self@,
    {
        proof {
            use_type_invariant(self);
        }
        let bytes: Vec<u8> = self.bytes.clone();
        assert(bytes@ =~= self.bytes@);
        Identity { bytes }
    }
}

impl Identity {
    #[verifier::type_invariant]
    spec fn bounded(self) -> bool {
        self.bytes@.len() <= MAX_IDENTITY_BYTES
    }

    /// The identity named by `bytes`, if they are few enough.
    pub fn from_bytes(bytes: Vec<u8>) -> (identity: Option<Identity>)
        ensures
            identity is Some <==> bytes@.len() <= MAX_IDENTITY_BYTES,
            identity matches Some(id) ==> id@ == bytes@,
    {
        if bytes.len() <= MAX_IDENTITY_BYTES {
            Some(Identity { bytes })
        } else {
            None
        }
    }

    /// The bytes that name the identity.
    pub fn as_bytes(&self) -> (bytes: &Vec<u8>)
        ensures
            bytes@ == self@,
            bytes@.len() <= MAX_IDENTITY_BYTES,
    {
        proof {
            use_type_invariant(self);
        }
        &self.bytes
    }

    /// Whether `self` and `other` are the same identity.
    pub fn same_as(&self, other: &Identity) -> (same: bool)
        ensures
            same == (self@ == other@),
    {
        if self.bytes.len() != other.bytes.len() {
            return false;
        }
        let mut i: usize = 0;
        while i < self.bytes.len()
            invariant
                i <= self.bytes.len(),
                self.bytes.len() == other.bytes.len(),
                forall|k: int| 0 <= k < i ==> self.bytes@[k] == other.bytes@[k],
            decreases self.bytes.len() - i,
        {
            if self.bytes[i] != other.bytes[i] {
                return false;
            }
            i = i + 1;
        }
        assert(self.bytes@ =~= other.bytes@);
        true
    }
}

/// How long a confirmed deposit stays locked.
#[derive(Clone, Copy, Debug, PartialEq, Eq, Structural)]
pub enum LockPeriod {
    Days90,
    Days180,
    Days360,
}

impl LockPeriod {
    /// The number of days the period lasts.
    pub open spec fn days(self) -> int {
        match self {
            LockPeriod::Days90 => 90,
            LockPeriod::Days180 => 180,
            LockPeriod::Days360 => 360,
        }
    }

    /// The period in seconds, as a specification.
    pub open spec fn seconds(self) -> u64 {
        (self.days() * SECONDS_PER_DAY) as u64
    }

    /// The period in seconds.
    pub fn to_seconds(&self) -> (seconds: u64)
        ensures
            seconds == self.seconds(),
            seconds == self.days() * SECONDS_PER_DAY,
    {
        match self {
            LockPeriod::Days90 => 7_776_000,
            LockPeriod::Days180 => 15_552_000,
            LockPeriod::Days360 => 31_104_000,
        }
    }
}

/// What a deposit is, as plain mathematical values.
#[verifier::ext_equal]
pub struct DepositModel {
    pub amount: u64,
    pub deposit_time: u64,
    pub lock_period: u64,
    pub subaccount: Seq<u8>,
}

/// A confirmed, locked stake.
#[derive(Clone, Copy, Debug)]
pub struct Deposit {
    pub amount: u64,
    /// In nanoseconds.
    pub deposit_time: u64,
    /// In seconds.
    pub lock_period: u64,
    pub subaccount: Subaccount,
}

impl View for Deposit {
    type V = DepositModel;

    open spec fn view(&self) -> DepositModel {
        DepositModel {
            amount: self.amount,
            deposit_time: self.deposit_time,
            lock_period: self.lock_period,
            subaccount: self.subaccount@,
        }
    }
}

/// The views of a run of deposits, in order.
pub open spec fn deposit_models(deposits: Seq<Deposit>) -> Seq<DepositModel> {
    Seq::new(deposits.len(), |i: int| deposits[i]@)
}

/// One identity's deposits, in the order in which they were confirmed.
#[derive(Debug)]
pub struct UserDeposits {
    pub deposits: Vec<Deposit>,
}

impl View for UserDeposits {
    type V = Seq<DepositModel>;

    open spec fn view(&self) -> Seq<DepositModel> {
        deposit_models(self.deposits@)
    }
}

impl Clone for UserDeposits {
    fn clone(&self) -> (copy: Self)
        ensures
            copy.deposits@ == self.deposits@,
    {
        let deposits: Vec<Deposit> = self.deposits.clone();
        assert(deposits@ =~= self.deposits@);
        UserDeposits { deposits }
    }
}

/// What a caller asks for when announcing a deposit.
#[derive(Debug)]
pub struct DepositArgs {
    pub amount: u64,
    pub lock_period: LockPeriod,
}

/// Which of the caller's deposits to withdraw, by position.
#[derive(Debug)]
pub struct WithdrawArgs {
    pub deposit_index: usize,
}

/// The answer to an announced deposit: where to send the funds, and until
/// when.
#[derive(Debug)]
pub struct DepositIntention {
    pub subaccount: Subaccount,
    pub deposit_address: String,
    pub expected_amount: u64,
    pub expires_at: u64,
}

/// Why an operation failed, as plain mathematical values.
#[verifier::ext_equal]
pub enum Fault {
    InsufficientFunds,
    DepositNotFound,
    LockPeriodNotExpired,
    TransferFailed(Seq<char>),
    InvalidAmount,
    Unauthorized,
    DepositExpired,
}

/// Why an operation failed.
#[derive(Debug)]
pub enum StakingError {
    InsufficientFunds,
    DepositNotFound,
    LockPeriodNotExpired,
    TransferFailed(String),
    InvalidAmount,
    Unauthorized,
    DepositExpired,
}

impl View for StakingError {
    type V = Fault;

    open spec fn view(&self) -> Fault {
        match self {
            StakingError::InsufficientFunds => Fault::InsufficientFunds,
            StakingError::DepositNotFound => Fault::DepositNotFound,
            StakingError::LockPeriodNotExpired => Fault::LockPeriodNotExpired,
            StakingError::TransferFailed(detail) => Fault::TransferFailed(detail@),
            StakingError::InvalidAmount => Fault::InvalidAmount,
            StakingError::Unauthorized => Fault::Unauthorized,
            StakingError::DepositExpired => Fault::DepositExpired,
        }
    }
}

pub type StakingResult<T> = Result<T, StakingError>;

/// What a reserved, not yet funded deposit slot is, as plain mathematical
/// values.
#[verifier::ext_equal]
pub struct IntentionModel {
    pub subaccount: Seq<u8>,
    pub user: Seq<u8>,
    pub expected_amount: u64,
    pub lock_period: u64,
    pub created_time: u64,
}

/// A reserved, not yet funded deposit slot.
#[derive(Debug)]
pub struct PendingDeposit {
    pub user: Identity,
    pub expected_amount: u64,
    /// In seconds.
    pub lock_period: u64,
    /// In nanoseconds.
    pub created_time: u64,
}

impl Clone for PendingDeposit {
    fn clone(&self) -> (copy: Self)
        ensures
            copy.user@ == self.user@,
            copy.expected_amount == self.expected_amount,
            copy.lock_period == self.lock_period,
            copy.created_time == self.created_time,
    {
        PendingDeposit {
            user: self.user.clone(),
            expected_amount: self.expected_amount,
            lock_period: self.lock_period,
            created_time: self.created_time,
        }
    }
}

} // verus!
