use candid::Principal;
use ic_ledger_types::AccountIdentifier;
use staking_pool::subaccount::subaccount_of;
use staking_pool::{
    get_deposit_address, proportional_share, DepositArgs, Identity, LockPeriod, Pool,
    RewardQuery, RewardStart, StakingError, Subaccount, TransferRequest, WithdrawArgs,
};

const FEE: u64 = 10_000;
const MINUTES_15: u64 = 15 * 60 * 1_000_000_000;
const DAYS_90: u64 = 90 * 24 * 60 * 60;
const SECOND: u64 = 1_000_000_000;
const LOCK_90: u64 = DAYS_90 * SECOND;
const START: u64 = 1_700_000_000_000_000_000;

/// Balances by text address, with the ledger's rule that a transfer costs
/// its amount and the fee.
struct Book {
    balances: Vec<(String, u64)>,
    blocks: u64,
}

impl Book {
    fn new() -> Book {
        Book { balances: Vec::new(), blocks: 0 }
    }

    fn balance_of(&self, address: &str) -> u64 {
        self.balances.iter().find(|(a, _)| a == address).map(|(_, b)| *b).unwrap_or(0)
    }

    fn set(&mut self, address: &str, amount: u64) {
        match self.balances.iter_mut().find(|(a, _)| a == address) {
            Some(entry) => entry.1 = amount,
            None => self.balances.push((address.to_string(), amount)),
        }
    }

    fn transfer(&mut self, from: &str, request: &TransferRequest) -> Result<u64, String> {
        let needed = request.amount + request.fee;
        let held = self.balance_of(from);
        if held < needed {
            return Err(format!("InsufficientFunds {{ balance: {} }}", held));
        }
        self.set(from, held - needed);
        let before = self.balance_of(&request.to);
        self.set(&request.to, before + request.amount);
        self.blocks += 1;
        Ok(self.blocks)
    }
}

fn principal(tag: u8) -> Principal {
    Principal::from_slice(&[0, 0, 0, 0, 0, 0, 0, tag, 1, 1])
}

fn identity(tag: u8) -> Identity {
    Identity::from_bytes(principal(tag).as_slice().to_vec()).unwrap()
}

fn custodian() -> Identity {
    identity(200)
}

fn home_address(tag: u8) -> String {
    AccountIdentifier::new(&principal(tag), &ic_ledger_types::DEFAULT_SUBACCOUNT).to_hex()
}

/// Announces a deposit, funds it with `funded` and confirms it at `now`.
fn stake(
    pool: &mut Pool,
    book: &mut Book,
    who: &Identity,
    amount: u64,
    funded: u64,
    period: LockPeriod,
    now: u64,
) -> Subaccount {
    let args = DepositArgs { amount, lock_period: period };
    let intention = pool.create_deposit_intention(who, &custodian(), &args, now).unwrap();
    book.set(&intention.deposit_address, funded);
    pool.check_confirm_deposit(who, &intention.subaccount, now).unwrap();
    let balance = book.balance_of(&intention.deposit_address);
    pool.confirm_deposit(who, &intention.subaccount, now, Some(balance)).unwrap();
    intention.subaccount
}

fn asked(start: RewardStart) -> RewardQuery {
    match start {
        RewardStart::Ask(query) => query,
        RewardStart::Finished(total) => panic!("nothing staked, finished with {}", total),
    }
}

fn run_transfers(
    pool: &mut Pool,
    book: &mut Book,
    mut run: staking_pool::Distribution,
) -> (u64, Vec<(TransferRequest, bool)>) {
    let mut log = Vec::new();
    while let Some(request) = run.next_transfer() {
        let from = get_deposit_address(&custodian(), &request.from_subaccount);
        let succeeded = book.transfer(&from, &request).is_ok();
        assert!(!succeeded || run.has_room());
        pool.record_transfer(&mut run, succeeded);
        log.push((request, succeeded));
    }
    assert!(run.is_finished());
    (pool.finish_distribution(&run), log)
}

#[test]
fn lock_periods_in_seconds() {
    assert_eq!(LockPeriod::Days90.to_seconds(), 7_776_000);
    assert_eq!(LockPeriod::Days180.to_seconds(), 15_552_000);
    assert_eq!(LockPeriod::Days360.to_seconds(), 31_104_000);
}

#[test]
fn identity_holds_at_most_29_bytes() {
    assert!(Identity::from_bytes(vec![7u8; 29]).is_some());
    assert!(Identity::from_bytes(vec![7u8; 30]).is_none());
    assert!(Identity::from_bytes(Vec::new()).is_some());
    let a = Identity::from_bytes(vec![1, 2, 3]).unwrap();
    let b = Identity::from_bytes(vec![1, 2, 3]).unwrap();
    let c = Identity::from_bytes(vec![1, 2, 4]).unwrap();
    let d = Identity::from_bytes(vec![1, 2]).unwrap();
    assert!(a.same_as(&b));
    assert!(!a.same_as(&c));
    assert!(!a.same_as(&d));
    assert_eq!(a.clone().as_bytes(), &vec![1u8, 2, 3]);
}

#[test]
fn subaccount_spells_counter_big_endian() {
    let mut expected = [0u8; 32];
    expected[24..32].copy_from_slice(&[1, 2, 3, 4, 5, 6, 7, 8]);
    assert_eq!(subaccount_of(0x0102_0304_0506_0708), expected);
    assert_eq!(subaccount_of(0), [0u8; 32]);
    let mut last = [0u8; 32];
    last[24..32].copy_from_slice(&[255; 8]);
    assert_eq!(subaccount_of(u64::MAX), last);
    for id in [0u64, 1, 255, 256, 65_535, 65_536, 1 << 40, u64::MAX - 1] {
        assert_eq!(subaccount_of(id)[24..32], id.to_be_bytes());
        assert!(subaccount_of(id) < subaccount_of(id + 1));
    }
}

#[test]
fn issued_subaccounts_are_distinct_and_increase() {
    let mut pool = Pool::new();
    let mut previous = pool.generate_subaccount();
    assert_eq!(previous, [0u8; 32]);
    for expected in 1u64..300 {
        let next = pool.generate_subaccount();
        assert!(previous < next);
        assert_eq!(next, subaccount_of(expected));
        previous = next;
    }
}

#[test]
fn reward_subaccount_is_issued_once() {
    let mut pool = Pool::new();
    let user = identity(1);
    assert!(!pool.has_reward_subaccount());
    let first = pool.generate_subaccount();
    let reward = pool.get_reward_subaccount();
    assert!(pool.has_reward_subaccount());
    assert_eq!(first, subaccount_of(0));
    assert_eq!(reward, subaccount_of(1));
    let args = DepositArgs { amount: 5, lock_period: LockPeriod::Days90 };
    let intention = pool.create_deposit_intention(&user, &custodian(), &args, START).unwrap();
    assert_eq!(intention.subaccount, subaccount_of(2));
    assert_eq!(pool.get_reward_subaccount(), reward);
    assert_eq!(pool.get_reward_address(&custodian()), get_deposit_address(&custodian(), &reward));
    assert_eq!(pool.generate_subaccount(), subaccount_of(3));
    assert_eq!(pool.get_reward_subaccount(), reward);
}

#[test]
fn address_is_the_ledgers_account_identifier() {
    let subaccount = subaccount_of(77);
    let expected =
        AccountIdentifier::new(&principal(200), &ic_ledger_types::Subaccount(subaccount)).to_hex();
    let address = get_deposit_address(&custodian(), &subaccount);
    assert_eq!(address, expected);
    assert_eq!(address.len(), 64);
    assert_ne!(address, get_deposit_address(&custodian(), &subaccount_of(78)));
    assert_ne!(address, get_deposit_address(&identity(201), &subaccount));
    let anonymous = Identity::from_bytes(vec![4]).unwrap();
    assert_eq!(
        get_deposit_address(&anonymous, &[0u8; 32]),
        AccountIdentifier::new(&Principal::anonymous(), &ic_ledger_types::DEFAULT_SUBACCOUNT)
            .to_hex()
    );
}

#[test]
fn intention_names_address_amount_and_expiry() {
    let mut pool = Pool::new();
    let user = identity(1);
    let args = DepositArgs { amount: 1_000_000, lock_period: LockPeriod::Days90 };
    let intention = pool.create_deposit_intention(&user, &custodian(), &args, START).unwrap();
    assert_eq!(intention.expected_amount, 1_000_000);
    assert_eq!(intention.expires_at, START + MINUTES_15);
    assert!(intention.expires_at > START);
    assert_eq!(intention.subaccount.len(), 32);
    assert_eq!(intention.subaccount, subaccount_of(0));
    assert_eq!(
        intention.deposit_address,
        get_deposit_address(&custodian(), &intention.subaccount)
    );
    let pending = pool.get_pending_deposits();
    assert_eq!(pending.len(), 1);
    assert_eq!(pending[0].0, intention.subaccount);
    assert!(pending[0].1.user.same_as(&user));
    assert_eq!(pending[0].1.expected_amount, 1_000_000);
    assert_eq!(pending[0].1.lock_period, DAYS_90);
    assert_eq!(pending[0].1.created_time, START);
}

#[test]
fn zero_amount_changes_nothing() {
    let mut pool = Pool::new();
    let user = identity(1);
    let args = DepositArgs { amount: 0, lock_period: LockPeriod::Days180 };
    let result = pool.create_deposit_intention(&user, &custodian(), &args, START);
    assert!(matches!(result, Err(StakingError::InvalidAmount)));
    assert_eq!(pool.get_pending_deposits().len(), 0);
    assert_eq!(pool.generate_subaccount(), subaccount_of(0));
    assert!(matches!(pool.begin_slash_pool(0, &user), Err(StakingError::InvalidAmount)));
    assert_eq!(pool.get_total_staked(), 0);
}

#[test]
fn confirmation_stakes_the_observed_balance() {
    let mut pool = Pool::new();
    let mut book = Book::new();
    let user = identity(1);
    let subaccount =
        stake(&mut pool, &mut book, &user, 1_000_000, 1_500_000, LockPeriod::Days180, START + 5);
    let deposits = pool.get_deposits(&user);
    assert_eq!(deposits.len(), 1);
    assert_eq!(deposits[0].amount, 1_500_000);
    assert_eq!(deposits[0].deposit_time, START + 5);
    assert_eq!(deposits[0].lock_period, 15_552_000);
    assert_eq!(deposits[0].subaccount, subaccount);
    assert_eq!(pool.get_total_staked(), 1_500_000);
    assert_eq!(pool.get_pending_deposits().len(), 0);
    assert_eq!(pool.get_deposits(&identity(2)).len(), 0);
}

#[test]
fn every_confirmation_failure_has_its_error() {
    let mut pool = Pool::new();
    let user = identity(1);
    let args = DepositArgs { amount: 1_000_000, lock_period: LockPeriod::Days90 };
    let intention = pool.create_deposit_intention(&user, &custodian(), &args, START).unwrap();
    let sub = intention.subaccount;

    let unknown = subaccount_of(9);
    assert!(matches!(
        pool.check_confirm_deposit(&user, &unknown, START),
        Err(StakingError::DepositNotFound)
    ));
    assert!(matches!(
        pool.confirm_deposit(&user, &unknown, START, Some(5_000_000)),
        Err(StakingError::DepositNotFound)
    ));
    let mut high = sub;
    high[0] = 1;
    assert!(matches!(
        pool.confirm_deposit(&user, &high, START, Some(5_000_000)),
        Err(StakingError::DepositNotFound)
    ));

    let stranger = identity(2);
    assert!(matches!(
        pool.check_confirm_deposit(&stranger, &sub, START),
        Err(StakingError::Unauthorized)
    ));
    assert!(matches!(
        pool.confirm_deposit(&stranger, &sub, START + 2 * MINUTES_15, Some(5_000_000)),
        Err(StakingError::Unauthorized)
    ));
    assert_eq!(pool.get_pending_deposits().len(), 1);

    assert!(pool.check_confirm_deposit(&user, &sub, START).is_ok());
    match pool.confirm_deposit(&user, &sub, START, None) {
        Err(StakingError::TransferFailed(detail)) => assert_eq!(detail, "Failed to check balance"),
        other => panic!("expected a failed balance query, got {:?}", other),
    }
    assert!(matches!(
        pool.confirm_deposit(&user, &sub, START, Some(999_999)),
        Err(StakingError::InsufficientFunds)
    ));
    assert_eq!(pool.get_pending_deposits().len(), 1);
    assert_eq!(pool.get_total_staked(), 0);

    assert!(pool.confirm_deposit(&user, &sub, START, Some(1_000_000)).is_ok());
    assert_eq!(pool.get_total_staked(), 1_000_000);
    assert!(matches!(
        pool.confirm_deposit(&user, &sub, START, Some(1_000_000)),
        Err(StakingError::DepositNotFound)
    ));
    assert_eq!(pool.get_deposits(&user).len(), 1);
    assert_eq!(pool.get_total_staked(), 1_000_000);
}

#[test]
fn confirmation_needs_room_only_where_it_succeeds() {
    let mut pool = Pool::new();
    let mut book = Book::new();
    let user = identity(1);
    stake(&mut pool, &mut book, &user, 10, u64::MAX - 5, LockPeriod::Days90, START);
    let args = DepositArgs { amount: 10, lock_period: LockPeriod::Days90 };
    let sub = pool.create_deposit_intention(&user, &custodian(), &args, START).unwrap().subaccount;
    assert!(pool.confirmation_fits(&user, &sub, START, Some(5)));
    assert!(pool.confirmation_fits(&user, &sub, START, None));
    assert!(pool.confirmation_fits(&identity(2), &sub, START, Some(6)));
    assert!(pool.confirmation_fits(&user, &subaccount_of(9), START, Some(6)));
    assert!(pool.confirmation_fits(&user, &sub, START + MINUTES_15 + 1, Some(6)));
    assert!(!pool.confirmation_fits(&user, &sub, START, Some(10)));
    assert!(!pool.confirmation_fits(&user, &sub, START + MINUTES_15, Some(u64::MAX)));
    assert!(matches!(
        pool.confirm_deposit(&user, &sub, START, Some(5)),
        Err(StakingError::InsufficientFunds)
    ));
    assert!(matches!(
        pool.confirm_deposit(&identity(2), &sub, START, Some(u64::MAX)),
        Err(StakingError::Unauthorized)
    ));
    assert_eq!(pool.get_total_staked(), u64::MAX - 5);
}

#[test]
fn intention_lives_fifteen_minutes() {
    let user = identity(1);
    let args = DepositArgs { amount: 10, lock_period: LockPeriod::Days90 };

    let mut pool = Pool::new();
    let sub = pool.create_deposit_intention(&user, &custodian(), &args, START).unwrap().subaccount;
    assert!(pool.check_confirm_deposit(&user, &sub, START + MINUTES_15 - 1).is_ok());
    assert!(pool.confirm_deposit(&user, &sub, START + MINUTES_15 - 1, Some(10)).is_ok());

    let mut pool = Pool::new();
    let sub = pool.create_deposit_intention(&user, &custodian(), &args, START).unwrap().subaccount;
    assert!(pool.check_confirm_deposit(&user, &sub, START + MINUTES_15).is_ok());
    assert_eq!(pool.cleanup_expired_deposits(START + MINUTES_15), 0);
    assert!(matches!(
        pool.check_confirm_deposit(&user, &sub, START + MINUTES_15 + 1),
        Err(StakingError::DepositExpired)
    ));
    assert_eq!(pool.get_pending_deposits().len(), 0);
    assert!(matches!(
        pool.check_confirm_deposit(&user, &sub, START + MINUTES_15 + 1),
        Err(StakingError::DepositNotFound)
    ));

    let mut pool = Pool::new();
    let sub = pool.create_deposit_intention(&user, &custodian(), &args, START).unwrap().subaccount;
    assert!(matches!(
        pool.confirm_deposit(&user, &sub, u64::MAX, Some(10)),
        Err(StakingError::DepositExpired)
    ));
    assert_eq!(pool.get_pending_deposits().len(), 0);
    assert_eq!(pool.get_total_staked(), 0);
}

#[test]
fn intention_near_the_end_of_time_never_expires() {
    let mut pool = Pool::new();
    let user = identity(1);
    let args = DepositArgs { amount: 10, lock_period: LockPeriod::Days90 };
    let late = u64::MAX - MINUTES_15;
    let intention = pool.create_deposit_intention(&user, &custodian(), &args, late).unwrap();
    assert_eq!(intention.expires_at, u64::MAX);
    assert_eq!(pool.cleanup_expired_deposits(u64::MAX), 0);
    assert!(pool.check_confirm_deposit(&user, &intention.subaccount, u64::MAX).is_ok());
}

#[test]
fn cleanup_removes_only_what_expired() {
    let mut pool = Pool::new();
    let user = identity(1);
    let args = DepositArgs { amount: 10, lock_period: LockPeriod::Days90 };
    let a = pool.create_deposit_intention(&user, &custodian(), &args, START).unwrap().subaccount;
    let b = pool
        .create_deposit_intention(&identity(2), &custodian(), &args, START + 100)
        .unwrap()
        .subaccount;
    let c =
        pool.create_deposit_intention(&user, &custodian(), &args, START + 50).unwrap().subaccount;
    assert_eq!(pool.cleanup_expired_deposits(START + MINUTES_15), 0);
    assert_eq!(pool.cleanup_expired_deposits(START + MINUTES_15 + 51), 2);
    let pending = pool.get_pending_deposits();
    assert_eq!(pending.len(), 1);
    assert_eq!(pending[0].0, b);
    assert!(pending[0].1.user.same_as(&identity(2)));
    assert_eq!(pool.cleanup_expired_deposits(START + MINUTES_15 + 51), 0);
    assert_eq!(pool.cleanup_expired_deposits(START + MINUTES_15 + 100), 0);
    assert_eq!(pool.cleanup_expired_deposits(START + MINUTES_15 + 101), 1);
    assert_eq!(pool.get_pending_deposits().len(), 0);
    assert_ne!(a, c);
}

#[test]
fn withdrawal_waits_for_the_lock() {
    let mut pool = Pool::new();
    let mut book = Book::new();
    let user = identity(1);
    let sub = stake(&mut pool, &mut book, &user, 1_000_000, 1_000_000, LockPeriod::Days90, START);
    let unlock = START + LOCK_90;
    let args = WithdrawArgs { deposit_index: 0 };

    assert!(matches!(
        pool.check_withdraw(&user, &args, START),
        Err(StakingError::LockPeriodNotExpired)
    ));
    assert!(matches!(
        pool.check_withdraw(&user, &args, START + SECOND),
        Err(StakingError::LockPeriodNotExpired)
    ));
    assert!(matches!(
        pool.check_withdraw(&user, &args, START + DAYS_90),
        Err(StakingError::LockPeriodNotExpired)
    ));
    assert_eq!(unlock, START + 7_776_000_000_000_000);
    assert!(matches!(
        pool.check_withdraw(&user, &args, unlock - 1),
        Err(StakingError::LockPeriodNotExpired)
    ));
    assert!(matches!(
        pool.check_withdraw(&user, &WithdrawArgs { deposit_index: 1 }, unlock),
        Err(StakingError::DepositNotFound)
    ));
    assert!(matches!(
        pool.check_withdraw(&identity(2), &args, unlock),
        Err(StakingError::DepositNotFound)
    ));

    let withdrawal = pool.check_withdraw(&user, &args, unlock).unwrap();
    assert_eq!(withdrawal.amount, 1_000_000);
    assert_eq!(withdrawal.transfer.memo, 0);
    assert_eq!(withdrawal.transfer.amount, 1_000_000 - FEE);
    assert_eq!(withdrawal.transfer.fee, FEE);
    assert_eq!(withdrawal.transfer.from_subaccount, sub);
    assert_eq!(withdrawal.transfer.to, home_address(1));

    let failed = pool.withdraw(&user, &withdrawal, Err("Call failed: 2 - busy".to_string()));
    match failed {
        Err(StakingError::TransferFailed(detail)) => assert_eq!(detail, "Call failed: 2 - busy"),
        other => panic!("expected a failed transfer, got {:?}", other),
    }
    assert_eq!(pool.get_deposits(&user).len(), 1);
    assert_eq!(pool.get_total_staked(), 1_000_000);

    let from = get_deposit_address(&custodian(), &withdrawal.transfer.from_subaccount);
    let outcome = book.transfer(&from, &withdrawal.transfer);
    assert!(outcome.is_ok());
    let paid = pool.withdraw(&user, &withdrawal, outcome).unwrap();
    assert_eq!(paid, 990_000);
    assert_eq!(book.balance_of(&home_address(1)), 990_000);
    assert_eq!(pool.get_deposits(&user).len(), 0);
    assert_eq!(pool.get_total_staked(), 0);
    assert!(matches!(
        pool.check_withdraw(&user, &args, unlock),
        Err(StakingError::DepositNotFound)
    ));
}

#[test]
fn withdrawal_of_less_than_the_fee_pays_nothing() {
    let mut pool = Pool::new();
    let mut book = Book::new();
    let user = identity(1);
    stake(&mut pool, &mut book, &user, 5_000, 5_000, LockPeriod::Days90, START);
    let withdrawal =
        pool.check_withdraw(&user, &WithdrawArgs { deposit_index: 0 }, u64::MAX).unwrap();
    assert_eq!(withdrawal.transfer.amount, 0);
    assert_eq!(pool.withdraw(&user, &withdrawal, Ok(1)).unwrap(), 0);
    assert_eq!(pool.get_total_staked(), 0);
}

#[test]
fn lock_that_ends_after_the_end_of_time_holds() {
    let mut pool = Pool::new();
    let mut book = Book::new();
    let user = identity(1);
    let fits = u64::MAX - 360 * 24 * 60 * 60 * SECOND;
    stake(&mut pool, &mut book, &user, 10, 10, LockPeriod::Days360, fits);
    assert!(matches!(
        pool.check_withdraw(&user, &WithdrawArgs { deposit_index: 0 }, u64::MAX - 1),
        Err(StakingError::LockPeriodNotExpired)
    ));
    assert!(pool.check_withdraw(&user, &WithdrawArgs { deposit_index: 0 }, u64::MAX).is_ok());

    stake(&mut pool, &mut book, &user, 10, 10, LockPeriod::Days360, fits + 1);
    assert!(matches!(
        pool.check_withdraw(&user, &WithdrawArgs { deposit_index: 1 }, u64::MAX),
        Err(StakingError::LockPeriodNotExpired)
    ));

    let late = u64::MAX - MINUTES_15;
    stake(&mut pool, &mut book, &user, 10, 10, LockPeriod::Days90, late);
    assert!(matches!(
        pool.check_withdraw(&user, &WithdrawArgs { deposit_index: 2 }, u64::MAX),
        Err(StakingError::LockPeriodNotExpired)
    ));
}

#[test]
fn each_lock_period_ends_at_its_own_time() {
    let mut pool = Pool::new();
    let mut book = Book::new();
    let user = identity(1);
    stake(&mut pool, &mut book, &user, 10, 10, LockPeriod::Days90, START);
    stake(&mut pool, &mut book, &user, 10, 10, LockPeriod::Days180, START);
    stake(&mut pool, &mut book, &user, 10, 10, LockPeriod::Days360, START);
    let ends = [7_776_000 * SECOND, 15_552_000 * SECOND, 31_104_000 * SECOND];
    for (index, end) in ends.iter().enumerate() {
        let args = WithdrawArgs { deposit_index: index };
        assert!(matches!(
            pool.check_withdraw(&user, &args, START + end - 1),
            Err(StakingError::LockPeriodNotExpired)
        ));
        assert!(pool.check_withdraw(&user, &args, START + end).is_ok());
    }
}

#[test]
fn withdrawals_are_pinned_to_their_deposit() {
    let mut pool = Pool::new();
    let mut book = Book::new();
    let user = identity(1);
    let a = stake(&mut pool, &mut book, &user, 100_000, 100_000, LockPeriod::Days90, START);
    let b = stake(&mut pool, &mut book, &user, 200_000, 200_000, LockPeriod::Days90, START);
    let c = stake(&mut pool, &mut book, &user, 300_000, 300_000, LockPeriod::Days90, START);
    let later = START + LOCK_90;
    let first = pool.check_withdraw(&user, &WithdrawArgs { deposit_index: 0 }, later).unwrap();
    let third = pool.check_withdraw(&user, &WithdrawArgs { deposit_index: 2 }, later).unwrap();
    assert_eq!(first.transfer.from_subaccount, a);
    assert_eq!(third.transfer.from_subaccount, c);

    assert_eq!(pool.withdraw(&user, &first, Ok(1)).unwrap(), 90_000);
    assert_eq!(pool.withdraw(&user, &third, Ok(2)).unwrap(), 290_000);
    let left = pool.get_deposits(&user);
    assert_eq!(left.len(), 1);
    assert_eq!(left[0].subaccount, b);
    assert_eq!(left[0].amount, 200_000);
    assert_eq!(pool.get_total_staked(), 200_000);

    assert_eq!(pool.withdraw(&user, &first, Ok(3)).unwrap(), 90_000);
    assert_eq!(pool.get_deposits(&user).len(), 1);
    assert_eq!(pool.get_total_staked(), 200_000);
}

#[test]
fn running_sum_follows_confirmations_and_withdrawals() {
    let mut pool = Pool::new();
    let mut book = Book::new();
    let ann = identity(1);
    let bob = identity(2);
    stake(&mut pool, &mut book, &ann, 100, 150, LockPeriod::Days90, START);
    stake(&mut pool, &mut book, &bob, 200, 200, LockPeriod::Days90, START);
    stake(&mut pool, &mut book, &ann, 300, 333, LockPeriod::Days360, START);
    let sum = |pool: &Pool| -> u64 {
        pool.get_deposits(&ann).iter().chain(pool.get_deposits(&bob).iter()).map(|d| d.amount).sum()
    };
    assert_eq!(pool.get_total_staked(), 683);
    assert_eq!(sum(&pool), 683);
    let later = START + LOCK_90;
    let withdrawal = pool.check_withdraw(&ann, &WithdrawArgs { deposit_index: 0 }, later).unwrap();
    pool.withdraw(&ann, &withdrawal, Ok(1)).unwrap();
    assert_eq!(pool.get_total_staked(), 533);
    assert_eq!(sum(&pool), 533);
    assert!(matches!(
        pool.check_withdraw(&ann, &WithdrawArgs { deposit_index: 0 }, later),
        Err(StakingError::LockPeriodNotExpired)
    ));
    let withdrawal = pool.check_withdraw(&bob, &WithdrawArgs { deposit_index: 0 }, later).unwrap();
    pool.withdraw(&bob, &withdrawal, Ok(2)).unwrap();
    assert_eq!(pool.get_total_staked(), 333);
    assert_eq!(sum(&pool), 333);
}

#[test]
fn share_is_the_rounded_down_quotient() {
    assert_eq!(proportional_share(10, 5, 20), 2);
    assert_eq!(proportional_share(3, 100, 7), 42);
    assert_eq!(proportional_share(1_000_000, 400_000, 4_000_000), 100_000);
    assert_eq!(proportional_share(0, 400_000, 4_000_000), 0);
    assert_eq!(proportional_share(1, 1, 2), 0);
    assert_eq!(proportional_share(u64::MAX, u64::MAX, u64::MAX), u64::MAX);
    assert_eq!(proportional_share(u64::MAX, 7, u64::MAX), 7);
    assert_eq!(proportional_share(u64::MAX, u64::MAX, 1), 1);
    assert_eq!(proportional_share(1 << 63, 4, 1), 0);
}

#[test]
fn nothing_staked_nothing_rewarded() {
    let mut pool = Pool::new();
    assert!(matches!(pool.begin_reward_pool(), RewardStart::Finished(0)));
    assert!(pool.has_reward_subaccount());
    assert!(matches!(pool.begin_reward_pool(), RewardStart::Finished(0)));
    assert_eq!(pool.get_total_staked(), 0);
}

#[test]
fn reward_needs_more_than_the_fee() {
    let mut pool = Pool::new();
    let mut book = Book::new();
    let user = identity(1);
    stake(&mut pool, &mut book, &user, 1_000_000, 1_000_000, LockPeriod::Days90, START);
    let query = asked(pool.begin_reward_pool());
    assert_eq!(query.total_staked, 1_000_000);
    assert_eq!(query.reward_subaccount, pool.get_reward_subaccount());
    match pool.plan_reward_pool(&custodian(), &query, None) {
        Err(StakingError::TransferFailed(detail)) => {
            assert_eq!(detail, "Failed to check reward balance")
        }
        other => panic!("expected a failed balance query, got {:?}", other),
    }
    assert!(matches!(
        pool.plan_reward_pool(&custodian(), &query, Some(0)),
        Err(StakingError::InsufficientFunds)
    ));
    assert!(matches!(
        pool.plan_reward_pool(&custodian(), &query, Some(FEE)),
        Err(StakingError::InsufficientFunds)
    ));
    let run = pool.plan_reward_pool(&custodian(), &query, Some(FEE + 1)).unwrap();
    assert_eq!(run.settled(), 0);
    assert!(!run.is_finished());
}

#[test]
fn rewards_are_shared_in_proportion() {
    let mut pool = Pool::new();
    let mut book = Book::new();
    let ann = identity(1);
    let bob = identity(2);
    let a = stake(&mut pool, &mut book, &ann, 1_000_000, 1_000_000, LockPeriod::Days90, START);
    let b = stake(&mut pool, &mut book, &bob, 3_000_000, 3_000_000, LockPeriod::Days90, START);
    let query = asked(pool.begin_reward_pool());
    let reward = query.reward_subaccount;
    let mut run = pool.plan_reward_pool(&custodian(), &query, Some(410_000)).unwrap();

    let first = run.next_transfer().unwrap();
    assert_eq!(first.memo, 1);
    assert_eq!(first.amount, 100_000);
    assert_eq!(first.fee, FEE);
    assert_eq!(first.from_subaccount, reward);
    assert_eq!(first.to, get_deposit_address(&custodian(), &a));
    let again = run.next_transfer().unwrap();
    assert_eq!(again.amount, 100_000);
    assert_eq!(again.to, first.to);
    assert!(run.has_room());
    pool.record_transfer(&mut run, true);
    assert_eq!(run.settled(), 100_000);
    assert_eq!(pool.get_deposits(&ann)[0].amount, 1_100_000);
    assert_eq!(pool.get_total_staked(), 4_000_000);

    let second = run.next_transfer().unwrap();
    assert_eq!(second.amount, 300_000);
    assert_eq!(second.to, get_deposit_address(&custodian(), &b));
    pool.record_transfer(&mut run, true);
    assert_eq!(run.settled(), 400_000);
    assert!(run.next_transfer().is_none());
    assert!(run.is_finished());
    pool.record_transfer(&mut run, true);
    assert_eq!(run.settled(), 400_000);

    assert_eq!(pool.finish_distribution(&run), 400_000);
    assert_eq!(pool.get_total_staked(), 4_400_000);
    assert_eq!(pool.get_deposits(&ann)[0].amount, 1_100_000);
    assert_eq!(pool.get_deposits(&bob)[0].amount, 3_300_000);
}

#[test]
fn failed_reward_transfer_is_skipped() {
    let mut pool = Pool::new();
    let mut book = Book::new();
    let ann = identity(1);
    let bob = identity(2);
    stake(&mut pool, &mut book, &ann, 1_000_000, 1_000_000, LockPeriod::Days90, START);
    stake(&mut pool, &mut book, &bob, 3_000_000, 3_000_000, LockPeriod::Days90, START);
    let query = asked(pool.begin_reward_pool());
    let reward_address = get_deposit_address(&custodian(), &query.reward_subaccount);
    book.set(&reward_address, 410_000);
    let run = pool
        .plan_reward_pool(&custodian(), &query, Some(book.balance_of(&reward_address)))
        .unwrap();
    let (distributed, log) = run_transfers(&mut pool, &mut book, run);
    assert_eq!(log.len(), 2);
    assert!(log[0].1);
    assert!(!log[1].1);
    assert_eq!(distributed, 100_000);
    assert_eq!(pool.get_deposits(&ann)[0].amount, 1_100_000);
    assert_eq!(pool.get_deposits(&bob)[0].amount, 3_000_000);
    assert_eq!(pool.get_total_staked(), 4_100_000);
    assert_eq!(book.balance_of(&reward_address), 300_000);
}

#[test]
fn reward_of_nothing_asks_for_no_transfer() {
    let mut pool = Pool::new();
    let mut book = Book::new();
    let ann = identity(1);
    stake(&mut pool, &mut book, &ann, 1, 1, LockPeriod::Days90, START);
    stake(&mut pool, &mut book, &ann, 1_000_000, 1_000_000, LockPeriod::Days90, START);
    let query = asked(pool.begin_reward_pool());
    let mut run = pool.plan_reward_pool(&custodian(), &query, Some(FEE + 1_000)).unwrap();
    let only = run.next_transfer().unwrap();
    assert_eq!(only.amount, 999);
    pool.record_transfer(&mut run, true);
    assert!(run.next_transfer().is_none());
    assert_eq!(pool.finish_distribution(&run), 999);
    assert_eq!(pool.get_deposits(&ann)[0].amount, 1);
    assert_eq!(pool.get_deposits(&ann)[1].amount, 1_000_999);
}

#[test]
fn reward_for_a_deposit_withdrawn_meanwhile_still_counts() {
    let mut pool = Pool::new();
    let mut book = Book::new();
    let ann = identity(1);
    stake(&mut pool, &mut book, &ann, 1_000_000, 1_000_000, LockPeriod::Days90, START);
    let query = asked(pool.begin_reward_pool());
    let mut run = pool.plan_reward_pool(&custodian(), &query, Some(FEE + 500)).unwrap();
    let request = run.next_transfer().unwrap();
    assert_eq!(request.amount, 500);
    let withdrawal =
        pool.check_withdraw(&ann, &WithdrawArgs { deposit_index: 0 }, START + LOCK_90).unwrap();
    pool.withdraw(&ann, &withdrawal, Ok(1)).unwrap();
    pool.record_transfer(&mut run, true);
    assert_eq!(pool.get_deposits(&ann).len(), 0);
    assert_eq!(pool.finish_distribution(&run), 500);
    assert_eq!(pool.get_total_staked(), 500);
}

#[test]
fn late_entrant_gets_no_reward() {
    let mut pool = Pool::new();
    let mut book = Book::new();
    let ann = identity(1);
    let bob = identity(2);
    stake(&mut pool, &mut book, &ann, 1_000, 1_000, LockPeriod::Days90, START);
    let query = asked(pool.begin_reward_pool());
    let mut run = pool.plan_reward_pool(&custodian(), &query, Some(FEE + 100)).unwrap();
    stake(&mut pool, &mut book, &bob, 1_000, 1_000, LockPeriod::Days90, START);
    assert_eq!(run.next_transfer().unwrap().amount, 100);
    pool.record_transfer(&mut run, true);
    assert!(run.next_transfer().is_none());
    assert_eq!(pool.finish_distribution(&run), 100);
    assert_eq!(pool.get_deposits(&bob)[0].amount, 1_000);
    assert_eq!(pool.get_total_staked(), 2_100);
}

#[test]
fn slash_is_taken_in_proportion() {
    let mut pool = Pool::new();
    let mut book = Book::new();
    let ann = identity(1);
    let bob = identity(2);
    let receiver = identity(9);
    let a = stake(&mut pool, &mut book, &ann, 1_000_000, 1_000_000, LockPeriod::Days90, START);
    let b = stake(&mut pool, &mut book, &bob, 3_000_000, 3_000_000, LockPeriod::Days90, START);

    assert!(matches!(
        pool.begin_slash_pool(4_000_001, &receiver),
        Err(StakingError::InsufficientFunds)
    ));
    let run = pool.begin_slash_pool(400_000, &receiver).unwrap();
    let (slashed, log) = run_transfers(&mut pool, &mut book, run);
    assert_eq!(slashed, 400_000);
    assert_eq!(log.len(), 2);
    assert_eq!(log[0].0.memo, 2);
    assert_eq!(log[0].0.amount, 90_000);
    assert_eq!(log[0].0.fee, FEE);
    assert_eq!(log[0].0.from_subaccount, a);
    assert_eq!(log[0].0.to, home_address(9));
    assert_eq!(log[1].0.amount, 290_000);
    assert_eq!(log[1].0.from_subaccount, b);
    assert!(log[0].1 && log[1].1);
    assert_eq!(book.balance_of(&home_address(9)), 380_000);
    assert_eq!(pool.get_deposits(&ann)[0].amount, 900_000);
    assert_eq!(pool.get_deposits(&bob)[0].amount, 2_700_000);
    assert_eq!(pool.get_total_staked(), 3_600_000);
}

#[test]
fn slash_shares_up_to_the_fee_are_passed_over() {
    let mut pool = Pool::new();
    let mut book = Book::new();
    let ann = identity(1);
    let receiver = identity(9);
    stake(&mut pool, &mut book, &ann, 1_000_000, 1_000_000, LockPeriod::Days90, START);
    stake(&mut pool, &mut book, &ann, 3_000_000, 3_000_000, LockPeriod::Days90, START);

    let mut run = pool.begin_slash_pool(40_000, &receiver).unwrap();
    let only = run.next_transfer().unwrap();
    assert_eq!(only.amount, 20_000);
    pool.record_transfer(&mut run, false);
    assert!(run.next_transfer().is_none());
    assert_eq!(pool.finish_distribution(&run), 0);
    assert_eq!(pool.get_total_staked(), 4_000_000);

    let mut run = pool.begin_slash_pool(40_004, &receiver).unwrap();
    assert_eq!(run.next_transfer().unwrap().amount, 1);
    pool.record_transfer(&mut run, true);
    assert_eq!(run.next_transfer().unwrap().amount, 20_003);
    pool.record_transfer(&mut run, true);
    assert_eq!(pool.finish_distribution(&run), 40_004);
    assert_eq!(pool.get_deposits(&ann)[0].amount, 989_999);
    assert_eq!(pool.get_deposits(&ann)[1].amount, 2_969_997);
    assert_eq!(pool.get_total_staked(), 3_959_996);

    let mut run = pool.begin_slash_pool(4, &receiver).unwrap();
    assert!(run.next_transfer().is_none());
    assert_eq!(pool.finish_distribution(&run), 0);
}

#[test]
fn slash_of_everything_empties_the_deposits() {
    let mut pool = Pool::new();
    let mut book = Book::new();
    let ann = identity(1);
    let receiver = identity(9);
    stake(&mut pool, &mut book, &ann, 50_000, 50_000, LockPeriod::Days90, START);
    let run = pool.begin_slash_pool(50_000, &receiver).unwrap();
    let (slashed, log) = run_transfers(&mut pool, &mut book, run);
    assert_eq!(slashed, 50_000);
    assert_eq!(log[0].0.amount, 40_000);
    assert_eq!(pool.get_deposits(&ann)[0].amount, 0);
    assert_eq!(pool.get_total_staked(), 0);
    assert!(matches!(pool.begin_slash_pool(1, &receiver), Err(StakingError::InsufficientFunds)));
}
