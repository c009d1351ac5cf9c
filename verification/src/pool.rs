//! The pool's state and the operations that need no more than one answer
//! from the ledger: issuing subaccounts, announcing and confirming
//! deposits, withdrawing, forgetting expired intentions, and the queries.

use vstd::prelude::*;

pub mod distribution;

use crate::ledger::{
    account_address, default_subaccount, default_subaccount_bytes, derive_account_address,
    ledger_fee, TransferModel, TransferRequest, Withdrawal, ADDRESS_LENGTH, MEMO_WITHDRAWAL,
    TRANSFER_FEE,
};
use crate::model::{
    deposit_keys, key_position, lemma_first_from_is, live_intentions, minus_fee, AccountModel,
    PoolModel, INTENTION_LIFETIME_NS, NANOS_PER_SECOND,
};
use crate::subaccount::subaccount_of;
use crate::types::{
    deposit_models, same_subaccount, Deposit, DepositArgs, DepositIntention, Fault, Identity,
    IntentionModel, PendingDeposit, StakingError, StakingResult, Subaccount, UserDeposits,
    WithdrawArgs,
};

verus! {

/// One identity with its deposits.
struct UserRecord {
    owner: Identity,
    account: UserDeposits,
}

impl UserRecord {
    spec fn model(self) -> AccountModel {
        AccountModel { owner: self.owner@, deposits: self.account@ }
    }
}

/// One intention with the subaccount it was created for.
struct PendingRecord {
    subaccount: Subaccount,
    intention: PendingDeposit,
}

impl PendingRecord {
    spec fn model(self) -> IntentionModel {
        IntentionModel {
            subaccount: self.subaccount@,
            user: self.intention.user@,
            expected_amount: self.intention.expected_amount,
            lock_period: self.intention.lock_period,
            created_time: self.intention.created_time,
        }
    }
}

/// The staking pool: who has staked what, what was announced, and the
/// counter that subaccounts are issued from.
pub struct Pool {
    users: Vec<UserRecord>,
    total_staked: u64,
    next_subaccount_id: u64,
    pending_deposits: Vec<PendingRecord>,
    reward_subaccount: Option<Subaccount>,
}

impl View for Pool {
    type V = PoolModel;

    closed spec fn view(&self) -> PoolModel {
        PoolModel {
            accounts: Seq::new(self.users@.len(), |i: int| self.users@[i].model()),
            total_staked: self.total_staked,
            next_subaccount_id: self.next_subaccount_id,
            pending: Seq::new(
                self.pending_deposits@.len(),
                |i: int| self.pending_deposits@[i].model(),
            ),
            reward_subaccount: match self.reward_subaccount {
                Some(reward) => Some(reward@),
                None => None,
            },
        }
    }
}

impl Pool {
    /// A pool in which nothing has happened yet.
    pub fn new() -> (pool: Pool)
        ensures
            pool@ == PoolModel::empty(),
            pool@.wf(),
    {
        let pool = Pool {
            users: Vec::new(),
            total_staked: 0,
            next_subaccount_id: 0,
            pending_deposits: Vec::new(),
            reward_subaccount: None,
        };
        proof {
            assert(pool@ =~= PoolModel::empty());
            PoolModel::lemma_empty_is_wf();
        }
        pool
    }

    /// Whether the counter can issue another subaccount.
    pub fn can_issue_subaccount(&self) -> (can: bool)
        ensures
            can == (self@.next_subaccount_id < u64::MAX),
    {
        self.next_subaccount_id < u64::MAX
    }

    /// Whether the reward subaccount was asked for before.
    pub fn has_reward_subaccount(&self) -> (has: bool)
        ensures
            has == (self@.reward_subaccount is Some),
    {
        self.reward_subaccount.is_some()
    }

    /// Issues the next subaccount.
    pub fn generate_subaccount(&mut self) -> (subaccount: Subaccount)
        requires
            old(self)@.next_subaccount_id < u64::MAX,
        ensures
            subaccount@ == old(self)@.next_subaccount(),
            final(self)@ == old(self)@.after_allocation(),
            old(self)@.wf() ==> final(self)@.wf(),
    {
        let subaccount: Subaccount = subaccount_of(self.next_subaccount_id);
        self.next_subaccount_id = self.next_subaccount_id + 1;
        proof {
            assert(self@ =~= old(self)@.after_allocation());
            if old(self)@.wf() {
                old(self)@.lemma_allocation_keeps_wf();
            }
        }
        subaccount
    }

    /// The subaccount that rewards are paid from. The first call issues
    /// it; every later call returns the same one.
    pub fn get_reward_subaccount(&mut self) -> (subaccount: Subaccount)
        requires
            old(self)@.reward_subaccount is None ==> old(self)@.next_subaccount_id < u64::MAX,
        ensures
            subaccount@ == old(self)@.reward_account(),
            final(self)@ == old(self)@.after_reward_lookup(),
            final(self)@.reward_subaccount == Some(subaccount@),
            old(self)@.wf() ==> final(self)@.wf(),
    {
        match self.reward_subaccount {
            Some(subaccount) => subaccount,
            None => {
                let subaccount: Subaccount = self.generate_subaccount();
                self.reward_subaccount = Some(subaccount);
                proof {
                    assert(self@ =~= old(self)@.after_reward_lookup());
                    if old(self)@.wf() {
                        old(self)@.lemma_reward_lookup_keeps_wf();
                    }
                }
                subaccount
            },
        }
    }

    /// The position of `owner`'s account among the users.
    fn find_user(&self, owner: &Identity) -> (at: usize)
        ensures
            at == self@.account_of(owner@),
            at <= self.users@.len(),
            at < self.users@.len() ==> self.users@[at as int].owner@ == owner@,
    {
        let ghost keys = self@.owners();
        let mut i: usize = 0;
        while i < self.users.len()
            invariant
                i <= self.users@.len(),
                keys == self@.owners(),
                keys.len() == self.users@.len(),
                forall|j: int| 0 <= j < i ==> keys[j] != owner@,
            decreases self.users@.len() - i,
        {
            if self.users[i].owner.same_as(owner) {
                proof {
                    lemma_first_from_is(keys, owner@, 0, i as int);
                }
                return i;
            }
            i = i + 1;
        }
        proof {
            lemma_first_from_is(keys, owner@, 0, i as int);
        }
        i
    }

    /// The position of the intention for `subaccount` among the pending
    /// ones.
    fn find_pending(&self, subaccount: &Subaccount) -> (at: usize)
        ensures
            at == self@.intention_of(subaccount@),
            at <= self.pending_deposits@.len(),
            at < self.pending_deposits@.len() ==> self.pending_deposits@[at as int].subaccount@
                == subaccount@,
    {
        let ghost keys = self@.pending_keys();
        let mut i: usize = 0;
        while i < self.pending_deposits.len()
            invariant
                i <= self.pending_deposits@.len(),
                keys == self@.pending_keys(),
                keys.len() == self.pending_deposits@.len(),
                forall|j: int| 0 <= j < i ==> keys[j] != subaccount@,
            decreases self.pending_deposits@.len() - i,
        {
            if same_subaccount(&self.pending_deposits[i].subaccount, subaccount) {
                proof {
                    lemma_first_from_is(keys, subaccount@, 0, i as int);
                }
                return i;
            }
            i = i + 1;
        }
        proof {
            lemma_first_from_is(keys, subaccount@, 0, i as int);
        }
        i
    }
}

impl Pool {
    /// Announces a deposit of `args.amount` by `caller` at `now`: reserves
    /// a fresh subaccount and says where the funds have to arrive, under
    /// the identity `custodian` that the pool holds its accounts with, and
    /// until when. An amount of zero is refused and changes nothing.
    pub fn create_deposit_intention(
        &mut self,
        caller: &Identity,
        custodian: &Identity,
        args: &DepositArgs,
        now: u64,
    ) -> (result: StakingResult<DepositIntention>)
        requires
            old(self)@.wf(),
            args.amount != 0 ==> old(self)@.next_subaccount_id < u64::MAX,
            args.amount != 0 ==> now + INTENTION_LIFETIME_NS <= u64::MAX,
        ensures
            final(self)@.wf(),
            final(self)@ == old(self)@.after_intention(
                caller@,
                args.amount,
                args.lock_period.seconds(),
                now,
            ),
            match result {
                Ok(intention) => {
                    &&& args.amount != 0
                    &&& intention.subaccount@ == old(self)@.next_subaccount()
                    &&& intention.deposit_address@ == account_address(
                        custodian@,
                        intention.subaccount@,
                    )
                    &&& intention.deposit_address@.len() == ADDRESS_LENGTH
                    &&& intention.expected_amount == args.amount
                    &&& intention.expires_at == now + INTENTION_LIFETIME_NS
                    &&& intention.expires_at > now
                },
                Err(error) => {
                    &&& args.amount == 0
                    &&& error@ == Fault::InvalidAmount
                    &&& final(self)@ == old(self)@
                },
            },
    {
        if args.amount == 0 {
            return Err(StakingError::InvalidAmount);
        }
        let subaccount: Subaccount = self.generate_subaccount();
        let record = PendingRecord {
            subaccount,
            intention: PendingDeposit {
                user: caller.clone(),
                expected_amount: args.amount,
                lock_period: args.lock_period.to_seconds(),
                created_time: now,
            },
        };
        self.pending_deposits.push(record);
        proof {
            assert(self@ =~= old(self)@.after_intention(
                caller@,
                args.amount,
                args.lock_period.seconds(),
                now,
            ));
            old(self)@.lemma_intention_keeps_wf(
                caller@,
                args.amount,
                args.lock_period.seconds(),
                now,
            );
        }
        let deposit_address: String = derive_account_address(custodian.as_bytes(), &subaccount);
        Ok(
            DepositIntention {
                subaccount,
                deposit_address,
                expected_amount: args.amount,
                expires_at: now + INTENTION_LIFETIME_NS,
            },
        )
    }
}

impl Pool {
    /// Whether the intention pending at position `at` can no longer be
    /// confirmed at `now`.
    fn pending_expired(&self, at: usize, now: u64) -> (expired: bool)
        requires
            at < self.pending_deposits@.len(),
        ensures
            expired == self@.pending[at as int].expired_at(now),
    {
        match self.pending_deposits[at].intention.created_time.checked_add(INTENTION_LIFETIME_NS) {
            Some(deadline) => now > deadline,
            None => false,
        }
    }

    /// Runs the checks of a confirmation that need no answer from the
    /// ledger, and gives the position of the intention if they pass.
    fn screen_confirmation(
        &mut self,
        caller: &Identity,
        subaccount: &Subaccount,
        now: u64,
    ) -> (result: StakingResult<usize>)
        requires
            old(self)@.wf(),
        ensures
            final(self)@.wf(),
            final(self)@ == old(self)@.after_confirmation_check(caller@, subaccount@, now),
            match result {
                Ok(at) => {
                    &&& old(self)@.confirmation_fault(caller@, subaccount@, now) is None
                    &&& at == old(self)@.intention_of(subaccount@)
                    &&& at < final(self).pending_deposits@.len()
                    &&& *final(self) == *old(self)
                },
                Err(error) => old(self)@.confirmation_fault(caller@, subaccount@, now) == Some(
                    error@,
                ),
            },
    {
        let at: usize = self.find_pending(subaccount);
        if at >= self.pending_deposits.len() {
            return Err(StakingError::DepositNotFound);
        }
        if !self.pending_deposits[at].intention.user.same_as(caller) {
            return Err(StakingError::Unauthorized);
        }
        if self.pending_expired(at, now) {
            self.pending_deposits.remove(at);
            proof {
                assert(self@ =~= old(self)@.without_intention(subaccount@));
                old(self)@.lemma_confirmation_check_keeps_wf(caller@, subaccount@, now);
            }
            return Err(StakingError::DepositExpired);
        }
        Ok(at)
    }

    /// The first step of a confirmation by `caller` at `now`: everything
    /// that can be decided before the ledger is asked. On `Ok` the caller
    /// of the pool has to read the balance of the pool's account under
    /// `subaccount` and hand it to [`Pool::confirm_deposit`]. An intention
    /// found expired is removed.
    pub fn check_confirm_deposit(
        &mut self,
        caller: &Identity,
        subaccount: &Subaccount,
        now: u64,
    ) -> (result: StakingResult<()>)
        requires
            old(self)@.wf(),
        ensures
            final(self)@.wf(),
            final(self)@ == old(self)@.after_confirmation_check(caller@, subaccount@, now),
            match result {
                Ok(_) => old(self)@.confirmation_fault(caller@, subaccount@, now) is None,
                Err(error) => old(self)@.confirmation_fault(caller@, subaccount@, now) == Some(
                    error@,
                ),
            },
    {
        match self.screen_confirmation(caller, subaccount, now) {
            Ok(_) => Ok(()),
            Err(error) => Err(error),
        }
    }

    /// Appends `deposit` to the deposits of `owner`, who gets an account
    /// if it had none.
    fn add_deposit(&mut self, owner: &Identity, deposit: Deposit)
        ensures
            final(self)@ == old(self)@.with_deposits(
                owner@,
                old(self)@.deposits_of(owner@).push(deposit@),
            ),
    {
        let at: usize = self.find_user(owner);
        if at < self.users.len() {
            self.users[at].account.deposits.push(deposit);
            proof {
                let grown = old(self)@.deposits_of(owner@).push(deposit@);
                assert(self.users@[at as int].account@ =~= grown);
                assert(self@.accounts =~= old(self)@.with_deposits(owner@, grown).accounts);
            }
        } else {
            let mut deposits: Vec<Deposit> = Vec::new();
            deposits.push(deposit);
            self.users.push(UserRecord { owner: owner.clone(), account: UserDeposits { deposits } });
            proof {
                let grown = old(self)@.deposits_of(owner@).push(deposit@);
                assert(self.users@[at as int].account@ =~= grown);
                assert(self@.accounts =~= old(self)@.with_deposits(owner@, grown).accounts);
            }
        }
    }

    /// Whether [`Pool::confirm_deposit`] can be called with these
    /// arguments: the confirmation fails, or the running sum has room for
    /// the balance that it would stake.
    pub fn confirmation_fits(
        &self,
        caller: &Identity,
        subaccount: &Subaccount,
        now: u64,
        reply: Option<u64>,
    ) -> (fits: bool)
        ensures
            fits == (self@.confirmation_outcome(caller@, subaccount@, now, reply) is None
                ==> self@.total_staked + reply->0 <= u64::MAX),
    {
        let at: usize = self.find_pending(subaccount);
        if at >= self.pending_deposits.len() {
            return true;
        }
        if !self.pending_deposits[at].intention.user.same_as(caller) {
            return true;
        }
        if self.pending_expired(at, now) {
            return true;
        }
        match reply {
            None => true,
            Some(balance) => {
                balance < self.pending_deposits[at].intention.expected_amount
                    || self.total_staked.checked_add(balance).is_some()
            },
        }
    }

    /// Confirms `caller`'s intention for `subaccount` at `now`, given the
    /// ledger's answer to the balance query (`None`: the query failed).
    /// All checks of [`Pool::check_confirm_deposit`] are made again, so a
    /// change of the intention while the ledger was asked is seen. On
    /// success the observed balance becomes the caller's newest deposit;
    /// the running sum must have room for it.
    pub fn confirm_deposit(
        &mut self,
        caller: &Identity,
        subaccount: &Subaccount,
        now: u64,
        reply: Option<u64>,
    ) -> (result: StakingResult<()>)
        requires
            old(self)@.wf(),
            old(self)@.confirmation_outcome(caller@, subaccount@, now, reply) is None
                ==> old(self)@.total_staked + reply->0 <= u64::MAX,
        ensures
            final(self)@.wf(),
            final(self)@ == old(self)@.after_confirmation(caller@, subaccount@, now, reply),
            match result {
                Ok(_) => old(self)@.confirmation_outcome(caller@, subaccount@, now, reply) is None,
                Err(error) => old(self)@.confirmation_outcome(caller@, subaccount@, now, reply)
                    == Some(error@),
            },
    {
        proof {
            old(self)@.lemma_confirmation_keeps_wf(caller@, subaccount@, now, reply);
        }
        let at: usize = match self.screen_confirmation(caller, subaccount, now) {
            Ok(at) => at,
            Err(error) => {
                return Err(error);
            },
        };
        let balance: u64 = match reply {
            Some(balance) => balance,
            None => {
                return Err(StakingError::TransferFailed("Failed to check balance".to_owned()));
            },
        };
        if balance < self.pending_deposits[at].intention.expected_amount {
            return Err(StakingError::InsufficientFunds);
        }
        let deposit = Deposit {
            amount: balance,
            deposit_time: now,
            lock_period: self.pending_deposits[at].intention.lock_period,
            subaccount: *subaccount,
        };
        self.add_deposit(caller, deposit);
        self.total_staked = self.total_staked + balance;
        self.pending_deposits.remove(at);
        proof {
            assert(self@ =~= old(self)@.after_confirmation(caller@, subaccount@, now, reply));
        }
        Ok(())
    }
}

impl Pool {
    /// The position, among the deposits of the user at `user`, of the
    /// first one under `subaccount`.
    fn find_deposit(&self, user: usize, subaccount: &Subaccount) -> (at: usize)
        requires
            user < self.users@.len(),
        ensures
            at == key_position(
                deposit_keys(self@.accounts[user as int].deposits),
                subaccount@,
            ),
            at <= self.users@[user as int].account.deposits@.len(),
    {
        let deposits: &Vec<Deposit> = &self.users[user].account.deposits;
        let ghost keys = deposit_keys(self@.accounts[user as int].deposits);
        let mut i: usize = 0;
        while i < deposits.len()
            invariant
                i <= deposits@.len(),
                deposits == &self.users@[user as int].account.deposits,
                keys == deposit_keys(self@.accounts[user as int].deposits),
                keys.len() == deposits@.len(),
                forall|j: int| 0 <= j < keys.len() ==> keys[j] == deposits@[j].subaccount@,
                forall|j: int| 0 <= j < i ==> keys[j] != subaccount@,
            decreases deposits@.len() - i,
        {
            if same_subaccount(&deposits[i].subaccount, subaccount) {
                proof {
                    lemma_first_from_is(keys, subaccount@, 0, i as int);
                }
                return i;
            }
            i = i + 1;
        }
        proof {
            lemma_first_from_is(keys, subaccount@, 0, i as int);
        }
        i
    }

    /// The first step of a withdrawal by `caller` at `now`: everything
    /// that can be decided before the ledger is asked. On `Ok` the caller
    /// of the pool has to ask the ledger for the transfer named and hand
    /// the ledger's answer to [`Pool::withdraw`].
    pub fn check_withdraw(
        &self,
        caller: &Identity,
        args: &WithdrawArgs,
        now: u64,
    ) -> (result: StakingResult<Withdrawal>)
        requires
            self@.wf(),
        ensures
            match result {
                Ok(withdrawal) => {
                    let deposit = self@.deposits_of(caller@)[args.deposit_index as int];
                    &&& self@.withdrawal_fault(caller@, args.deposit_index as int, now) is None
                    &&& withdrawal.amount == deposit.amount
                    &&& withdrawal.transfer@ == (TransferModel {
                        memo: MEMO_WITHDRAWAL,
                        amount: minus_fee(deposit.amount),
                        fee: TRANSFER_FEE,
                        from_subaccount: deposit.subaccount,
                        to: account_address(caller@, default_subaccount_bytes()),
                    })
                },
                Err(error) => self@.withdrawal_fault(caller@, args.deposit_index as int, now)
                    == Some(error@),
            },
    {
        let user: usize = self.find_user(caller);
        if user >= self.users.len() {
            return Err(StakingError::DepositNotFound);
        }
        let deposits: &Vec<Deposit> = &self.users[user].account.deposits;
        if args.deposit_index >= deposits.len() {
            return Err(StakingError::DepositNotFound);
        }
        let deposit: Deposit = deposits[args.deposit_index];
        assert(deposit@ == self@.deposits_of(caller@)[args.deposit_index as int]);
        let locked: bool = match deposit.lock_period.checked_mul(NANOS_PER_SECOND) {
            Some(lock_nanos) => match deposit.deposit_time.checked_add(lock_nanos) {
                Some(unlock_time) => now < unlock_time,
                None => true,
            },
            None => true,
        };
        if locked {
            return Err(StakingError::LockPeriodNotExpired);
        }
        let fee: u64 = ledger_fee();
        let home: Subaccount = default_subaccount();
        let to: String = derive_account_address(caller.as_bytes(), &home);
        Ok(
            Withdrawal {
                amount: deposit.amount,
                transfer: TransferRequest {
                    memo: MEMO_WITHDRAWAL,
                    amount: deposit.amount.saturating_sub(fee),
                    fee,
                    from_subaccount: deposit.subaccount,
                    to,
                },
            },
        )
    }

    /// Finishes a withdrawal of `caller` with the ledger's answer to the
    /// transfer: `Ok` with the block that holds it, or `Err` with what
    /// went wrong. A failed transfer leaves the pool as it was. After a
    /// transfer that went through, the deposit that the transfer left from
    /// is removed, found by its subaccount and not by its position, and
    /// its amount leaves the running sum; the amount credited is returned.
    pub fn withdraw(
        &mut self,
        caller: &Identity,
        withdrawal: &Withdrawal,
        outcome: Result<u64, String>,
    ) -> (result: StakingResult<u64>)
        requires
            old(self)@.wf(),
        ensures
            final(self)@.wf(),
            match outcome {
                Ok(_) => final(self)@ == old(self)@.after_withdrawal(
                    caller@,
                    withdrawal.transfer.from_subaccount@,
                    withdrawal.amount,
                ) && result == Ok::<u64, StakingError>(minus_fee(withdrawal.amount)),
                Err(detail) => final(self)@ == old(self)@ && (result matches Err(error) && error@
                    == Fault::TransferFailed(detail@)),
            },
    {
        match outcome {
            Err(detail) => Err(StakingError::TransferFailed(detail)),
            Ok(_) => {
                proof {
                    old(self)@.lemma_withdrawal_keeps_wf(
                        caller@,
                        withdrawal.transfer.from_subaccount@,
                        withdrawal.amount,
                    );
                }
                let user: usize = self.find_user(caller);
                if user < self.users.len() {
                    let at: usize = self.find_deposit(user, &withdrawal.transfer.from_subaccount);
                    if at < self.users[user].account.deposits.len() {
                        self.users[user].account.deposits.remove(at);
                        self.total_staked = self.total_staked.saturating_sub(withdrawal.amount);
                        proof {
                            let rest = old(self)@.deposits_of(caller@).remove(at as int);
                            assert(self.users@[user as int].account@ =~= rest);
                            assert(self@.accounts =~= old(self)@.with_deposits(
                                caller@,
                                rest,
                            ).accounts);
                            assert(self@ =~= old(self)@.after_withdrawal(
                                caller@,
                                withdrawal.transfer.from_subaccount@,
                                withdrawal.amount,
                            ));
                        }
                    }
                }
                let fee: u64 = ledger_fee();
                Ok(withdrawal.amount.saturating_sub(fee))
            },
        }
    }

    /// Removes every intention that expired before `now` and says how
    /// many there were.
    pub fn cleanup_expired_deposits(&mut self, now: u64) -> (removed: u64)
        requires
            old(self)@.wf(),
        ensures
            final(self)@.wf(),
            final(self)@ == old(self)@.after_cleanup(now),
            removed == old(self)@.expired_count(now),
    {
        proof {
            old(self)@.lemma_cleanup_keeps_wf(now);
        }
        let mut kept: Vec<PendingRecord> = Vec::new();
        let mut i: usize = 0;
        let ghost pending = self@.pending;
        assert(pending.take(0) =~= Seq::<IntentionModel>::empty());
        assert(live_intentions(Seq::<IntentionModel>::empty(), now)
            =~= Seq::<IntentionModel>::empty()) by {
            reveal(Seq::filter);
        }
        while i < self.pending_deposits.len()
            invariant
                i <= self.pending_deposits@.len(),
                *self == *old(self),
                pending == self@.pending,
                pending.len() == self.pending_deposits@.len(),
                Seq::new(kept@.len(), |k: int| kept@[k].model()) == live_intentions(
                    pending.take(i as int),
                    now,
                ),
            decreases self.pending_deposits@.len() - i,
        {
            proof {
                assert(pending.take(i as int + 1) =~= pending.take(i as int).push(pending[i as int]));
                pending.take(i as int).lemma_filter_push(
                    pending[i as int],
                    |intention: IntentionModel| !intention.expired_at(now),
                );
            }
            if !self.pending_expired(i, now) {
                let record = PendingRecord {
                    subaccount: self.pending_deposits[i].subaccount,
                    intention: self.pending_deposits[i].intention.clone(),
                };
                assert(record.model() == pending[i as int]);
                let ghost before = Seq::new(kept@.len(), |k: int| kept@[k].model());
                kept.push(record);
                assert(Seq::new(kept@.len(), |k: int| kept@[k].model()) =~= before.push(
                    pending[i as int],
                ));
            }
            i = i + 1;
        }
        assert(pending.take(i as int) =~= pending);
        let before: usize = self.pending_deposits.len();
        let after: usize = kept.len();
        self.pending_deposits = kept;
        proof {
            assert(self@ =~= old(self)@.after_cleanup(now));
        }
        (before - after) as u64
    }

    /// The deposits of `user`, in the order in which they were confirmed;
    /// none if `user` never had one.
    pub fn get_deposits(&self, user: &Identity) -> (deposits: Vec<Deposit>)
        ensures
            deposit_models(deposits@) == self@.deposits_of(user@),
    {
        let at: usize = self.find_user(user);
        if at < self.users.len() {
            let copy: UserDeposits = self.users[at].account.clone();
            copy.deposits
        } else {
            let none: Vec<Deposit> = Vec::new();
            assert(deposit_models(none@) =~= self@.deposits_of(user@));
            none
        }
    }

    /// The running sum of what is staked.
    pub fn get_total_staked(&self) -> (total: u64)
        ensures
            total == self@.total_staked,
    {
        self.total_staked
    }

    /// The text address that rewards have to be sent to, under the
    /// identity `custodian` that the pool holds its accounts with. The
    /// first use of the reward subaccount issues it.
    pub fn get_reward_address(&mut self, custodian: &Identity) -> (address: String)
        requires
            old(self)@.wf(),
            old(self)@.reward_subaccount is None ==> old(self)@.next_subaccount_id < u64::MAX,
        ensures
            final(self)@.wf(),
            final(self)@ == old(self)@.after_reward_lookup(),
            address@ == account_address(custodian@, old(self)@.reward_account()),
            address@.len() == ADDRESS_LENGTH,
    {
        let subaccount: Subaccount = self.get_reward_subaccount();
        derive_account_address(custodian.as_bytes(), &subaccount)
    }

    /// The intentions that were neither confirmed nor removed, oldest
    /// first, each with its subaccount.
    pub fn get_pending_deposits(&self) -> (pending: Vec<(Subaccount, PendingDeposit)>)
        ensures
            pending@.len() == self@.pending.len(),
            forall|i: int|
                0 <= i < pending@.len() ==> (#[trigger] self@.pending[i]) == (IntentionModel {
                    subaccount: pending@[i].0@,
                    user: pending@[i].1.user@,
                    expected_amount: pending@[i].1.expected_amount,
                    lock_period: pending@[i].1.lock_period,
                    created_time: pending@[i].1.created_time,
                }),
    {
        let mut pending: Vec<(Subaccount, PendingDeposit)> = Vec::new();
        let mut i: usize = 0;
        while i < self.pending_deposits.len()
            invariant
                i <= self.pending_deposits@.len(),
                pending@.len() == i,
                forall|k: int|
                    0 <= k < i ==> (#[trigger] self@.pending[k]) == (IntentionModel {
                        subaccount: pending@[k].0@,
                        user: pending@[k].1.user@,
                        expected_amount: pending@[k].1.expected_amount,
                        lock_period: pending@[k].1.lock_period,
                        created_time: pending@[k].1.created_time,
                    }),
            decreases self.pending_deposits@.len() - i,
        {
            let entry = (
                self.pending_deposits[i].subaccount,
                self.pending_deposits[i].intention.clone(),
            );
            pending.push(entry);
            i = i + 1;
        }
        pending
    }
}

} // verus!
