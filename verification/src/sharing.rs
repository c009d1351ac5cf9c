//! Distributing an amount over the deposits in proportion to their size,
//! as mathematics: the snapshot that a distribution works on, the share of
//! each deposit, the order of the transfers, and what each transfer that
//! went through changes in the pool.

use vstd::prelude::*;
use crate::ledger::{
    account_address, default_subaccount_bytes, TransferModel, MEMO_REWARD, MEMO_SLASH,
    TRANSFER_FEE,
};
use crate::model::{
    capped_sum, deposit_keys, deposits_wf, floored_difference, lemma_key_position, minus_fee,
    AccountModel, PoolModel,
};
use crate::subaccount::issued_before;
use crate::types::DepositModel;

verus! {

/// One more than the largest amount.
pub const AMOUNT_RANGE: u128 = 0x1_0000_0000_0000_0000;

/// One deposit as a distribution saw it when it started, with its owner.
#[verifier::ext_equal]
pub struct StakeModel {
    pub owner: Seq<u8>,
    pub deposit: DepositModel,
}

/// The deposits of `account`, each with the account's owner.
pub open spec fn stakes_of(account: AccountModel) -> Seq<StakeModel> {
    Seq::new(
        account.deposits.len(),
        |j: int| StakeModel { owner: account.owner, deposit: account.deposits[j] },
    )
}

/// All deposits of `accounts` with their owners: account by account, and
/// within an account in the order of its deposits.
pub open spec fn snapshot(accounts: Seq<AccountModel>) -> Seq<StakeModel>
    decreases accounts.len(),
{
    if accounts.len() == 0 {
        Seq::empty()
    } else {
        snapshot(accounts.drop_last()) + stakes_of(accounts.last())
    }
}

/// The part of `amount` that falls to a deposit of `stake` when
/// `total` is staked in all: `stake * amount / total`, rounded down and
/// kept to 64 bits.
pub open spec fn share_of(stake: u64, amount: u64, total: u64) -> u64 {
    (((stake as int) * (amount as int) / (total as int)) % (AMOUNT_RANGE as int)) as u64
}

/// A deposit that is no larger than the total gets the rounded-down
/// quotient itself, and no more than the amount that is distributed.
pub proof fn lemma_share_within_amount(stake: u64, amount: u64, total: u64)
    requires
        0 < total,
        stake <= total,
    ensures
        share_of(stake, amount, total) == (stake as int) * (amount as int) / (total as int),
        share_of(stake, amount, total) <= amount,
{
    let product = (stake as int) * (amount as int);
    let bound = (total as int) * (amount as int);
    assert(0 <= product <= bound) by (nonlinear_arith)
        requires
            0 <= stake <= total,
            0 <= amount,
            product == (stake as int) * (amount as int),
            bound == (total as int) * (amount as int),
    ;
    vstd::arithmetic::div_mod::lemma_div_is_ordered(product, bound, total as int);
    vstd::arithmetic::div_mod::lemma_div_multiples_vanish(amount as int, total as int);
    assert(bound == (amount as int) * (total as int)) by (nonlinear_arith)
        requires
            bound == (total as int) * (amount as int),
    ;
    vstd::arithmetic::div_mod::lemma_div_pos_is_pos(product, total as int);
    vstd::arithmetic::div_mod::lemma_small_mod((product / (total as int)) as nat, AMOUNT_RANGE as nat);
}

/// What an amount is distributed for.
#[verifier::ext_equal]
pub enum PurposeModel {
    /// Rewards, paid to the deposits from the subaccount named.
    Reward { reward_subaccount: Seq<u8> },
    /// A slashing, taken from the deposits.
    Slash,
}

/// A distribution under way.
#[verifier::ext_equal]
pub struct DistributionModel {
    pub purpose: PurposeModel,
    /// The owner of the accounts that the transfers go to: the pool's own
    /// identity for rewards, the receiver for a slashing.
    pub counterparty: Seq<u8>,
    /// The amount to distribute.
    pub amount: u64,
    /// The running sum of the pool when the distribution started.
    pub total_staked: u64,
    /// The deposits when the distribution started.
    pub stakes: Seq<StakeModel>,
    /// The position of the deposit that is served next.
    pub cursor: int,
    /// The sum of the shares whose transfers went through.
    pub settled: u64,
}

impl DistributionModel {
    /// What holds of every distribution that the pool hands out.
    pub open spec fn wf(self) -> bool {
        &&& 0 <= self.cursor <= self.stakes.len()
        &&& self.total_staked > 0
    }

    /// Whether rewards are distributed.
    pub open spec fn rewards(self) -> bool {
        self.purpose is Reward
    }

    /// The share of the deposit at position `k`.
    pub open spec fn share(self, k: int) -> u64 {
        share_of(self.stakes[k].deposit.amount, self.amount, self.total_staked)
    }

    /// Whether the deposit at position `k` gets a transfer: a reward must
    /// not be zero, and a slashed share must exceed the ledger's fee.
    pub open spec fn due(self, k: int) -> bool {
        if self.rewards() {
            self.share(k) > 0
        } else {
            self.share(k) > TRANSFER_FEE
        }
    }

    /// The first position at or after `from` whose deposit gets a
    /// transfer, or the number of deposits if there is none.
    pub open spec fn next_due(self, from: int) -> int
        decreases self.stakes.len() - from,
    {
        if from >= self.stakes.len() {
            self.stakes.len() as int
        } else if from >= 0 && self.due(from) {
            from
        } else {
            self.next_due(from + 1)
        }
    }

    /// The transfer for the deposit at position `k`. A reward of the whole
    /// share goes from the reward subaccount to the deposit's own account;
    /// a slashed share, less the fee, goes from the deposit's subaccount
    /// to the receiver.
    pub open spec fn request(self, k: int) -> TransferModel {
        match self.purpose {
            PurposeModel::Reward { reward_subaccount } => TransferModel {
                memo: MEMO_REWARD,
                amount: self.share(k),
                fee: TRANSFER_FEE,
                from_subaccount: reward_subaccount,
                to: account_address(self.counterparty, self.stakes[k].deposit.subaccount),
            },
            PurposeModel::Slash => TransferModel {
                memo: MEMO_SLASH,
                amount: minus_fee(self.share(k)),
                fee: TRANSFER_FEE,
                from_subaccount: self.stakes[k].deposit.subaccount,
                to: account_address(self.counterparty, default_subaccount_bytes()),
            },
        }
    }

    /// Whether every deposit was served.
    pub open spec fn finished(self) -> bool {
        self.cursor >= self.stakes.len()
    }

    /// The distribution once the deposits that get no transfer were passed
    /// over.
    pub open spec fn advanced(self) -> DistributionModel {
        DistributionModel { cursor: self.next_due(self.cursor), ..self }
    }

    /// The distribution once the ledger answered the transfer for the
    /// deposit under the cursor: the cursor moves on, and a transfer that
    /// went through adds its share to what is settled.
    pub open spec fn recorded(self, succeeded: bool) -> DistributionModel {
        if self.finished() {
            self
        } else {
            DistributionModel {
                cursor: self.cursor + 1,
                settled: if succeeded {
                    (self.settled + self.share(self.cursor)) as u64
                } else {
                    self.settled
                },
                ..self
            }
        }
    }
}

/// The sum of the amounts of the first `count` of `stakes`.
pub open spec fn staked_before(stakes: Seq<StakeModel>, count: int) -> int
    decreases count,
{
    if count <= 0 {
        0
    } else {
        staked_before(stakes, count - 1) + stakes[count - 1].deposit.amount
    }
}

impl DistributionModel {
    /// The sum of the shares of the first `count` deposits.
    pub open spec fn shares_before(self, count: int) -> int
        decreases count,
    {
        if count <= 0 {
            0
        } else {
            self.shares_before(count - 1) + self.share(count - 1)
        }
    }

    /// Whether the deposits of the snapshot sum to no more than the
    /// running sum that their shares are taken of.
    pub open spec fn covered(self) -> bool {
        staked_before(self.stakes, self.stakes.len() as int) <= self.total_staked
    }

    /// Whether what is settled is no more than the shares of the deposits
    /// that were served.
    pub open spec fn within_shares(self) -> bool {
        self.settled <= self.shares_before(self.cursor)
    }
}

/// What `next_due` finds is the first deposit at or after `from` that
/// gets a transfer.
pub proof fn lemma_next_due(run: DistributionModel, from: int)
    requires
        0 <= from <= run.stakes.len(),
    ensures
        from <= run.next_due(from) <= run.stakes.len(),
        run.next_due(from) < run.stakes.len() ==> run.due(run.next_due(from)),
        forall|k: int| from <= k < run.next_due(from) ==> !run.due(k),
    decreases run.stakes.len() - from,
{
    if from < run.stakes.len() && !run.due(from) {
        lemma_next_due(run, from + 1);
    }
}

impl PoolModel {
    /// The pool once `share` was added to, or else taken from, the first
    /// deposit of `owner` under `subaccount`; the same pool if `owner` has
    /// no such deposit any more. The deposit's amount stays within 64
    /// bits.
    pub open spec fn adjusted(
        self,
        owner: Seq<u8>,
        subaccount: Seq<u8>,
        add: bool,
        share: u64,
    ) -> PoolModel {
        let deposits = self.deposits_of(owner);
        let at = self.deposit_under(owner, subaccount);
        if at < deposits.len() {
            let amount = if add {
                capped_sum(deposits[at].amount, share)
            } else {
                floored_difference(deposits[at].amount, share)
            };
            self.with_deposits(
                owner,
                deposits.update(at, DepositModel { amount, ..deposits[at] }),
            )
        } else {
            self
        }
    }

    /// The pool once the ledger answered the transfer for the deposit
    /// under the cursor of `run`: a transfer that went through changes the
    /// deposit as it is now, looked up by owner and subaccount.
    pub open spec fn after_transfer(self, run: DistributionModel, succeeded: bool) -> PoolModel {
        if succeeded && !run.finished() {
            self.adjusted(
                run.stakes[run.cursor].owner,
                run.stakes[run.cursor].deposit.subaccount,
                run.rewards(),
                run.share(run.cursor),
            )
        } else {
            self
        }
    }

    /// The pool once what `run` settled was added to the running sum, or
    /// else taken from it. The sum stays within 64 bits.
    pub open spec fn after_distribution(self, run: DistributionModel) -> PoolModel {
        PoolModel {
            total_staked: if run.rewards() {
                capped_sum(self.total_staked, run.settled)
            } else {
                floored_difference(self.total_staked, run.settled)
            },
            ..self
        }
    }

    /// Settling a distribution keeps the pool well formed.
    pub proof fn lemma_distribution_keeps_wf(self, run: DistributionModel)
        requires
            self.wf(),
        ensures
            self.after_distribution(run).wf(),
    {
        let after = self.after_distribution(run);
        assert(after.owners() =~= self.owners());
        assert(after.pending_keys() =~= self.pending_keys());
    }

    /// Changing one deposit's amount keeps the pool well formed.
    pub proof fn lemma_adjusted_keeps_wf(
        self,
        owner: Seq<u8>,
        subaccount: Seq<u8>,
        add: bool,
        share: u64,
    )
        requires
            self.wf(),
        ensures
            self.adjusted(owner, subaccount, add, share).wf(),
    {
        let deposits = self.deposits_of(owner);
        let at = self.deposit_under(owner, subaccount);
        lemma_key_position(deposit_keys(deposits), subaccount);
        if at < deposits.len() {
            let amount = if add {
                capped_sum(deposits[at].amount, share)
            } else {
                floored_difference(deposits[at].amount, share)
            };
            let changed = deposits.update(at, DepositModel { amount, ..deposits[at] });
            let after = self.with_deposits(owner, changed);
            assert(after == self.adjusted(owner, subaccount, add, share));
            self.lemma_deposits_of_wf(owner);
            assert(deposits_wf(changed, self.pending_keys(), self.next_subaccount_id)) by {
                assert(deposit_keys(changed) =~= deposit_keys(deposits));
                assert forall|j: int| 0 <= j < changed.len() implies issued_before(
                    #[trigger] changed[j].subaccount,
                    self.next_subaccount_id,
                ) && !self.pending_keys().contains(changed[j].subaccount) by {
                    assert(changed[j].subaccount == deposits[j].subaccount);
                }
            }
            self.lemma_with_deposits(owner, changed, self.pending_keys(), self.next_subaccount_id);
            assert(after.pending_keys() =~= self.pending_keys());
        }
    }
}

} // verus!
