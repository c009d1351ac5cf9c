//! Reward distribution and slashing: an amount is split over the deposits
//! in proportion to their size, one ledger transfer per deposit. The pool
//! names the transfers one at a time and is told how each one went.

use vstd::prelude::*;
use crate::ledger::{
    default_subaccount, derive_account_address, ledger_fee, TransferRequest, MEMO_REWARD,
    MEMO_SLASH, TRANSFER_FEE,
};
use crate::model::{reward_query_failed, AccountModel};
use crate::pool::Pool;
use crate::sharing::{
    lemma_next_due, share_of, snapshot, stakes_of, DistributionModel, PurposeModel, StakeModel,
    AMOUNT_RANGE,
};
use crate::types::{
    Deposit, DepositModel, Fault, Identity, StakingError, StakingResult, Subaccount,
};

verus! {

/// One deposit as a distribution saw it when it started, with its owner.
#[derive(Debug)]
pub struct Stake {
    pub owner: Identity,
    pub deposit: Deposit,
}

impl View for Stake {
    type V = StakeModel;

    open spec fn view(&self) -> StakeModel {
        StakeModel { owner: self.owner@, deposit: self.deposit@ }
    }
}

/// The views of a run of stakes, in order.
pub open spec fn stake_models(stakes: Seq<Stake>) -> Seq<StakeModel> {
    Seq::new(stakes.len(), |i: int| stakes[i]@)
}

/// What an amount is distributed for.
#[derive(Clone, Copy, Debug)]
pub enum Purpose {
    /// Rewards, paid to the deposits from the subaccount named.
    Reward { reward_subaccount: Subaccount },
    /// A slashing, taken from the deposits.
    Slash,
}

impl View for Purpose {
    type V = PurposeModel;

    open spec fn view(&self) -> PurposeModel {
        match self {
            Purpose::Reward { reward_subaccount } => PurposeModel::Reward {
                reward_subaccount: reward_subaccount@,
            },
            Purpose::Slash => PurposeModel::Slash,
        }
    }
}

/// What the pool needs to know from the ledger before it can distribute
/// rewards: the balance of its account under `reward_subaccount`.
#[derive(Debug)]
pub struct RewardQuery {
    pub reward_subaccount: Subaccount,
    /// The running sum of the pool when the distribution was asked for.
    pub total_staked: u64,
}

/// How a reward distribution starts.
#[derive(Debug)]
pub enum RewardStart {
    /// Nothing is staked, so the distribution is over at once: this is
    /// its total, zero, and the ledger is not asked for anything.
    Finished(u64),
    /// The ledger has to be asked for the balance named.
    Ask(RewardQuery),
}

/// A distribution under way.
#[derive(Debug)]
pub struct Distribution {
    purpose: Purpose,
    counterparty: Identity,
    amount: u64,
    total_staked: u64,
    stakes: Vec<Stake>,
    cursor: usize,
    settled: u64,
}

impl View for Distribution {
    type V = DistributionModel;

    closed spec fn view(&self) -> DistributionModel {
        DistributionModel {
            purpose: self.purpose@,
            counterparty: self.counterparty@,
            amount: self.amount,
            total_staked: self.total_staked,
            stakes: stake_models(self.stakes@),
            cursor: self.cursor as int,
            settled: self.settled,
        }
    }
}

/// The part of `amount` that falls to a deposit of `stake` when `total`
/// is staked in all.
pub fn proportional_share(stake: u64, amount: u64, total: u64) -> (share: u64)
    requires
        total > 0,
    ensures
        share == share_of(stake, amount, total),
{
    assert((stake as int) * (amount as int) <= 0xffff_ffff_ffff_ffff * 0xffff_ffff_ffff_ffff)
        by (nonlinear_arith)
        requires
            0 <= stake <= 0xffff_ffff_ffff_ffff,
            0 <= amount <= 0xffff_ffff_ffff_ffff,
    ;
    assert(0 <= (stake as int) * (amount as int)) by (nonlinear_arith)
        requires
            0 <= stake,
            0 <= amount,
    ;
    let product: u128 = (stake as u128) * (amount as u128);
    let quotient: u128 = product / (total as u128);
    (quotient % AMOUNT_RANGE) as u64
}

impl Distribution {
    /// The sum of the shares whose transfers went through so far.
    pub fn settled(&self) -> (settled: u64)
        ensures
            settled == self@.settled,
    {
        self.settled
    }

    /// Whether every deposit was served.
    pub fn is_finished(&self) -> (finished: bool)
        ensures
            finished == self@.finished(),
    {
        self.cursor >= self.stakes.len()
    }

    /// The share of the deposit at position `k`.
    fn share_at(&self, k: usize) -> (share: u64)
        requires
            k < self.stakes@.len(),
            self.total_staked > 0,
        ensures
            share == self@.share(k as int),
    {
        proportional_share(self.stakes[k].deposit.amount, self.amount, self.total_staked)
    }

    /// Whether the sum of what is settled has room for the share of the
    /// deposit under the cursor.
    pub fn has_room(&self) -> (room: bool)
        requires
            self@.wf(),
        ensures
            room == (self@.finished() || self@.settled + self@.share(self@.cursor) <= u64::MAX),
    {
        if self.cursor >= self.stakes.len() {
            true
        } else {
            let share: u64 = self.share_at(self.cursor);
            self.settled.checked_add(share).is_some()
        }
    }

    /// Passes over the deposits that get no transfer and names the
    /// transfer for the first deposit that gets one; `None` once every
    /// deposit was served. The answer of the ledger to the transfer named
    /// has to be handed to [`Pool::record_transfer`].
    pub fn next_transfer(&mut self) -> (transfer: Option<TransferRequest>)
        requires
            old(self)@.wf(),
        ensures
            final(self)@.wf(),
            final(self)@ == old(self)@.advanced(),
            match transfer {
                Some(request) => !final(self)@.finished() && request@ == final(self)@.request(
                    final(self)@.cursor,
                ),
                None => final(self)@.finished(),
            },
    {
        let fee: u64 = ledger_fee();
        let ghost run = self@;
        proof {
            lemma_next_due(run, run.cursor);
        }
        while self.cursor < self.stakes.len()
            invariant
                self@.wf(),
                self@ == (DistributionModel { cursor: self.cursor as int, ..run }),
                run == old(self)@,
                run.cursor <= self.cursor <= self.stakes@.len(),
                run.next_due(self.cursor as int) == run.next_due(run.cursor),
                fee == TRANSFER_FEE,
            decreases self.stakes@.len() - self.cursor,
        {
            let share: u64 = self.share_at(self.cursor);
            assert(share == run.share(self.cursor as int));
            match self.purpose {
                Purpose::Reward { reward_subaccount } => {
                    if share > 0 {
                        let to: String = derive_account_address(
                            self.counterparty.as_bytes(),
                            &self.stakes[self.cursor].deposit.subaccount,
                        );
                        assert(self@ =~= run.advanced());
                        return Some(
                            TransferRequest {
                                memo: MEMO_REWARD,
                                amount: share,
                                fee,
                                from_subaccount: reward_subaccount,
                                to,
                            },
                        );
                    }
                },
                Purpose::Slash => {
                    if share > fee {
                        let home: Subaccount = default_subaccount();
                        let to: String = derive_account_address(
                            self.counterparty.as_bytes(),
                            &home,
                        );
                        assert(self@ =~= run.advanced());
                        return Some(
                            TransferRequest {
                                memo: MEMO_SLASH,
                                amount: share.saturating_sub(fee),
                                fee,
                                from_subaccount: self.stakes[self.cursor].deposit.subaccount,
                                to,
                            },
                        );
                    }
                },
            }
            self.cursor = self.cursor + 1;
        }
        assert(self@ =~= run.advanced());
        None
    }
}

impl Pool {
    /// All deposits with their owners, user by user.
    fn take_snapshot(&self) -> (stakes: Vec<Stake>)
        ensures
            stake_models(stakes@) == snapshot(self@.accounts),
    {
        let mut stakes: Vec<Stake> = Vec::new();
        let ghost accounts = self@.accounts;
        let mut i: usize = 0;
        assert(accounts.take(0) =~= Seq::<AccountModel>::empty());
        assert(stake_models(stakes@) =~= snapshot(accounts.take(0)));
        while i < self.users.len()
            invariant
                i <= self.users@.len(),
                accounts == self@.accounts,
                accounts.len() == self.users@.len(),
                stake_models(stakes@) == snapshot(accounts.take(i as int)),
            decreases self.users@.len() - i,
        {
            let deposits: &Vec<Deposit> = &self.users[i].account.deposits;
            let ghost before = snapshot(accounts.take(i as int));
            let ghost account = accounts[i as int];
            let mut j: usize = 0;
            assert(stakes_of(account).take(0) =~= Seq::<StakeModel>::empty());
            assert(stake_models(stakes@) =~= before + stakes_of(account).take(0));
            while j < deposits.len()
                invariant
                    i < self.users@.len(),
                    j <= deposits@.len(),
                    deposits == &self.users@[i as int].account.deposits,
                    account == accounts[i as int],
                    accounts == self@.accounts,
                    account.deposits.len() == deposits@.len(),
                    stake_models(stakes@) == before + stakes_of(account).take(j as int),
                decreases deposits@.len() - j,
            {
                let ghost so_far = stake_models(stakes@);
                let stake = Stake { owner: self.users[i].owner.clone(), deposit: deposits[j] };
                assert(stake@ == stakes_of(account)[j as int]);
                stakes.push(stake);
                assert(stake_models(stakes@) =~= so_far.push(stakes_of(account)[j as int]));
                assert(stakes_of(account).take(j as int + 1) =~= stakes_of(account).take(
                    j as int,
                ).push(stakes_of(account)[j as int]));
                assert(stake_models(stakes@) =~= before + stakes_of(account).take(j as int + 1));
                j = j + 1;
            }
            assert(stakes_of(account).take(j as int) =~= stakes_of(account));
            assert(accounts.take(i as int + 1).drop_last() =~= accounts.take(i as int));
            assert(accounts.take(i as int + 1).last() == account);
            i = i + 1;
        }
        assert(accounts.take(i as int) =~= accounts);
        stakes
    }

    /// The first step of a reward distribution: resolves the reward
    /// subaccount, which its first use issues, and reads the running sum.
    /// Deposits, running sum and intentions stay as they are. If nothing
    /// is staked the distribution is over with a total of zero, and the
    /// ledger is not asked for anything. Else the caller of the pool has
    /// to read the balance of the pool's account under the subaccount
    /// named and hand it to [`Pool::plan_reward_pool`].
    pub fn begin_reward_pool(&mut self) -> (start: RewardStart)
        requires
            old(self)@.wf(),
            old(self)@.reward_subaccount is None ==> old(self)@.next_subaccount_id < u64::MAX,
        ensures
            final(self)@.wf(),
            final(self)@ == old(self)@.after_reward_lookup(),
            final(self)@.accounts == old(self)@.accounts,
            final(self)@.total_staked == old(self)@.total_staked,
            final(self)@.pending == old(self)@.pending,
            match start {
                RewardStart::Finished(distributed) => {
                    &&& old(self)@.total_staked == 0
                    &&& distributed == 0
                },
                RewardStart::Ask(asked) => {
                    &&& old(self)@.total_staked != 0
                    &&& asked.reward_subaccount@ == old(self)@.reward_account()
                    &&& asked.total_staked == old(self)@.total_staked
                },
            },
    {
        let reward_subaccount: Subaccount = self.get_reward_subaccount();
        let total_staked: u64 = self.total_staked;
        if total_staked == 0 {
            RewardStart::Finished(0)
        } else {
            RewardStart::Ask(RewardQuery { reward_subaccount, total_staked })
        }
    }

    /// The second step of a reward distribution, given the ledger's answer
    /// to the balance query (`None`: the query failed). The balance must
    /// exceed the ledger's fee; what exceeds it is distributed over the
    /// deposits as they are now, in proportion to the running sum that
    /// `query` holds. The transfers go to accounts of `custodian`, the
    /// identity that the pool holds its accounts with.
    pub fn plan_reward_pool(
        &self,
        custodian: &Identity,
        query: &RewardQuery,
        reply: Option<u64>,
    ) -> (result: StakingResult<Distribution>)
        requires
            query.total_staked > 0,
        ensures
            match result {
                Ok(run) => {
                    &&& reply matches Some(balance)
                    &&& balance > TRANSFER_FEE
                    &&& run@.wf()
                    &&& run@ == (DistributionModel {
                        purpose: PurposeModel::Reward {
                            reward_subaccount: query.reward_subaccount@,
                        },
                        counterparty: custodian@,
                        amount: (balance - TRANSFER_FEE) as u64,
                        total_staked: query.total_staked,
                        stakes: snapshot(self@.accounts),
                        cursor: 0,
                        settled: 0,
                    })
                },
                Err(error) => match reply {
                    None => error@ == Fault::TransferFailed(reward_query_failed()),
                    Some(balance) => balance <= TRANSFER_FEE && error@
                        == Fault::InsufficientFunds,
                },
            },
    {
        let balance: u64 = match reply {
            Some(balance) => balance,
            None => {
                return Err(
                    StakingError::TransferFailed("Failed to check reward balance".to_owned()),
                );
            },
        };
        let fee: u64 = ledger_fee();
        if balance <= fee {
            return Err(StakingError::InsufficientFunds);
        }
        let run = Distribution {
            purpose: Purpose::Reward { reward_subaccount: query.reward_subaccount },
            counterparty: custodian.clone(),
            amount: balance - fee,
            total_staked: query.total_staked,
            stakes: self.take_snapshot(),
            cursor: 0,
            settled: 0,
        };
        Ok(run)
    }

    /// The first step of a slashing of `amount` in favour of `receiver`.
    /// An amount of zero is refused, and so is one that exceeds the
    /// running sum. Else `amount` is taken from the deposits as they are
    /// now, in proportion to the running sum.
    pub fn begin_slash_pool(&self, amount: u64, receiver: &Identity) -> (result: StakingResult<
        Distribution,
    >)
        ensures
            match result {
                Ok(run) => {
                    &&& amount != 0
                    &&& amount <= self@.total_staked
                    &&& run@.wf()
                    &&& run@ == (DistributionModel {
                        purpose: PurposeModel::Slash,
                        counterparty: receiver@,
                        amount,
                        total_staked: self@.total_staked,
                        stakes: snapshot(self@.accounts),
                        cursor: 0,
                        settled: 0,
                    })
                },
                Err(error) => if amount == 0 {
                    error@ == Fault::InvalidAmount
                } else {
                    amount > self@.total_staked && error@ == Fault::InsufficientFunds
                },
            },
    {
        if amount == 0 {
            return Err(StakingError::InvalidAmount);
        }
        if self.total_staked == 0 || amount > self.total_staked {
            return Err(StakingError::InsufficientFunds);
        }
        let run = Distribution {
            purpose: Purpose::Slash,
            counterparty: receiver.clone(),
            amount,
            total_staked: self.total_staked,
            stakes: self.take_snapshot(),
            cursor: 0,
            settled: 0,
        };
        Ok(run)
    }

    /// Takes the ledger's answer to the transfer for the deposit under the
    /// cursor of `run`, and moves the cursor on. A transfer that went
    /// through adds its share to what `run` has settled, and changes the
    /// amount of the deposit as the pool holds it now: the first deposit
    /// of the same owner under the same subaccount, if there still is one.
    /// A transfer that failed changes nothing else.
    pub fn record_transfer(&mut self, run: &mut Distribution, succeeded: bool)
        requires
            old(self)@.wf(),
            old(run)@.wf(),
            succeeded && !old(run)@.finished() ==> old(run)@.settled + old(run)@.share(
                old(run)@.cursor,
            ) <= u64::MAX,
        ensures
            final(self)@.wf(),
            final(run)@.wf(),
            final(run)@ == old(run)@.recorded(succeeded),
            final(self)@ == old(self)@.after_transfer(old(run)@, succeeded),
    {
        if run.cursor >= run.stakes.len() {
            return;
        }
        let share: u64 = run.share_at(run.cursor);
        if succeeded {
            let adding: bool = match run.purpose {
                Purpose::Reward { reward_subaccount } => true,
                Purpose::Slash => false,
            };
            proof {
                old(self)@.lemma_adjusted_keeps_wf(
                    run@.stakes[run@.cursor].owner,
                    run@.stakes[run@.cursor].deposit.subaccount,
                    adding,
                    share,
                );
            }
            self.adjust_deposit(
                &run.stakes[run.cursor].owner,
                &run.stakes[run.cursor].deposit.subaccount,
                adding,
                share,
            );
            run.settled = run.settled + share;
        }
        run.cursor = run.cursor + 1;
        assert(run@ =~= old(run)@.recorded(succeeded));
    }

    /// Adds `share` to, or else takes it from, the first deposit of
    /// `owner` under `subaccount`, if there is one.
    fn adjust_deposit(&mut self, owner: &Identity, subaccount: &Subaccount, add: bool, share: u64)
        ensures
            final(self)@ == old(self)@.adjusted(owner@, subaccount@, add, share),
    {
        let user: usize = self.find_user(owner);
        if user < self.users.len() {
            let at: usize = self.find_deposit(user, subaccount);
            if at < self.users[user].account.deposits.len() {
                let held: Deposit = self.users[user].account.deposits[at];
                let amount: u64 = if add {
                    held.amount.saturating_add(share)
                } else {
                    held.amount.saturating_sub(share)
                };
                self.users[user].account.deposits[at] = Deposit { amount, ..held };
                proof {
                    let deposits = old(self)@.deposits_of(owner@);
                    let changed = deposits.update(
                        at as int,
                        DepositModel { amount, ..deposits[at as int] },
                    );
                    assert(self.users@[user as int].account@ =~= changed);
                    assert(self@.accounts =~= old(self)@.with_deposits(owner@, changed).accounts);
                }
            }
        }
    }

    /// The last step of a distribution: what `run` has settled is added
    /// to the running sum if rewards were distributed, and taken from it
    /// after a slashing; it is also what is returned.
    pub fn finish_distribution(&mut self, run: &Distribution) -> (settled: u64)
        requires
            old(self)@.wf(),
        ensures
            final(self)@.wf(),
            final(self)@ == old(self)@.after_distribution(run@),
            settled == run@.settled,
    {
        match run.purpose {
            Purpose::Reward { reward_subaccount } => {
                self.total_staked = self.total_staked.saturating_add(run.settled);
            },
            Purpose::Slash => {
                self.total_staked = self.total_staked.saturating_sub(run.settled);
            },
        }
        proof {
            assert(self@ =~= old(self)@.after_distribution(run@));
            old(self)@.lemma_distribution_keeps_wf(run@);
        }
        run.settled
    }
}

} // verus!
