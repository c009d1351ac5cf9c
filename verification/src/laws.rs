//! What holds of the pool across several operations, proved of the
//! functions in [`crate::model`] that the executable pool is specified
//! against.

use vstd::prelude::*;
use crate::model::{
    accounts_total, capped_sum, deposit_keys, deposits_total, floored_difference,
    lemma_first_from_is, lemma_key_position, lemma_live_intentions, live_intentions,
    AccountModel, PoolModel, INTENTION_LIFETIME_NS, NANOS_PER_SECOND,
};
use crate::sharing::{
    lemma_next_due, lemma_share_within_amount, snapshot, staked_before, stakes_of,
    DistributionModel, StakeModel,
};
use crate::subaccount::{lemma_subaccounts_increase, subaccount_number};
use crate::types::{DepositModel, Fault, IntentionModel};

verus! {

/// A subaccount issued later is never one issued earlier, and spells a
/// greater number: the counter in `later` has passed the one in
/// `earlier`.
pub proof fn lemma_issued_subaccounts_increase(earlier: PoolModel, later: PoolModel)
    requires
        earlier.next_subaccount_id < later.next_subaccount_id,
    ensures
        subaccount_number(earlier.next_subaccount()) < subaccount_number(later.next_subaccount()),
        earlier.next_subaccount() != later.next_subaccount(),
{
    lemma_subaccounts_increase(earlier.next_subaccount_id, later.next_subaccount_id);
}

/// No operation turns the counter back, and issuing a subaccount moves it
/// on.
pub proof fn lemma_counter_never_falls(
    pool: PoolModel,
    caller: Seq<u8>,
    subaccount: Seq<u8>,
    amount: u64,
    lock_period: u64,
    now: u64,
    reply: Option<u64>,
    run: DistributionModel,
    succeeded: bool,
)
    requires
        pool.next_subaccount_id < u64::MAX,
    ensures
        pool.after_allocation().next_subaccount_id > pool.next_subaccount_id,
        pool.after_reward_lookup().next_subaccount_id >= pool.next_subaccount_id,
        pool.after_intention(caller, amount, lock_period, now).next_subaccount_id
            >= pool.next_subaccount_id,
        amount != 0 ==> pool.after_intention(caller, amount, lock_period, now).next_subaccount_id
            > pool.next_subaccount_id,
        pool.after_confirmation_check(caller, subaccount, now).next_subaccount_id
            == pool.next_subaccount_id,
        pool.after_confirmation(caller, subaccount, now, reply).next_subaccount_id
            == pool.next_subaccount_id,
        pool.after_cleanup(now).next_subaccount_id == pool.next_subaccount_id,
        pool.after_withdrawal(caller, subaccount, amount).next_subaccount_id
            == pool.next_subaccount_id,
        pool.after_transfer(run, succeeded).next_subaccount_id == pool.next_subaccount_id,
        pool.after_distribution(run).next_subaccount_id == pool.next_subaccount_id,
{
}

/// Asking for the reward subaccount again gives the same subaccount and
/// changes nothing.
pub proof fn lemma_reward_subaccount_is_stable(pool: PoolModel)
    ensures
        pool.after_reward_lookup().reward_subaccount == Some(pool.reward_account()),
        pool.after_reward_lookup().reward_account() == pool.reward_account(),
        pool.after_reward_lookup().after_reward_lookup() == pool.after_reward_lookup(),
{
}

/// Once the reward subaccount is known, no operation changes it.
pub proof fn lemma_reward_subaccount_is_kept(
    pool: PoolModel,
    caller: Seq<u8>,
    subaccount: Seq<u8>,
    amount: u64,
    lock_period: u64,
    now: u64,
    reply: Option<u64>,
    run: DistributionModel,
    succeeded: bool,
)
    requires
        pool.reward_subaccount is Some,
    ensures
        pool.after_allocation().reward_account() == pool.reward_account(),
        pool.after_intention(caller, amount, lock_period, now).reward_account()
            == pool.reward_account(),
        pool.after_confirmation_check(caller, subaccount, now).reward_account()
            == pool.reward_account(),
        pool.after_confirmation(caller, subaccount, now, reply).reward_account()
            == pool.reward_account(),
        pool.after_cleanup(now).reward_account() == pool.reward_account(),
        pool.after_withdrawal(caller, subaccount, amount).reward_account() == pool.reward_account(),
        pool.after_transfer(run, succeeded).reward_account() == pool.reward_account(),
        pool.after_distribution(run).reward_account() == pool.reward_account(),
{
}

/// An intention created at `created` can be confirmed by its owner at
/// every `now` before `created` plus the lifetime, and is found expired
/// at every `now` after it.
pub proof fn lemma_intention_lifetime(
    pool: PoolModel,
    caller: Seq<u8>,
    amount: u64,
    lock_period: u64,
    created: u64,
    now: u64,
)
    requires
        pool.wf(),
        amount != 0,
        pool.next_subaccount_id < u64::MAX,
        now != created + INTENTION_LIFETIME_NS,
    ensures
        now < created + INTENTION_LIFETIME_NS ==> pool.after_intention(
            caller,
            amount,
            lock_period,
            created,
        ).confirmation_fault(caller, pool.next_subaccount(), now) is None,
        now > created + INTENTION_LIFETIME_NS ==> pool.after_intention(
            caller,
            amount,
            lock_period,
            created,
        ).confirmation_fault(caller, pool.next_subaccount(), now) == Some(Fault::DepositExpired),
{
    pool.lemma_intention_keeps_wf(caller, amount, lock_period, created);
}

/// At the very end of its lifetime an intention can still be confirmed.
pub proof fn lemma_intention_last_moment(
    pool: PoolModel,
    caller: Seq<u8>,
    amount: u64,
    lock_period: u64,
    created: u64,
)
    requires
        pool.wf(),
        amount != 0,
        pool.next_subaccount_id < u64::MAX,
        created + INTENTION_LIFETIME_NS <= u64::MAX,
    ensures
        pool.after_intention(caller, amount, lock_period, created).confirmation_fault(
            caller,
            pool.next_subaccount(),
            (created + INTENTION_LIFETIME_NS) as u64,
        ) is None,
{
    pool.lemma_intention_keeps_wf(caller, amount, lock_period, created);
}

/// Whoever is not the owner of an intention cannot confirm it, whatever
/// the time and the ledger's answer, and leaves the pool as it was.
pub proof fn lemma_stranger_cannot_confirm(
    pool: PoolModel,
    stranger: Seq<u8>,
    subaccount: Seq<u8>,
    now: u64,
    reply: Option<u64>,
)
    requires
        pool.intention_of(subaccount) < pool.pending.len(),
        pool.pending[pool.intention_of(subaccount)].user != stranger,
    ensures
        pool.confirmation_fault(stranger, subaccount, now) == Some(Fault::Unauthorized),
        pool.after_confirmation_check(stranger, subaccount, now) == pool,
        pool.confirmation_outcome(stranger, subaccount, now, reply) == Some(Fault::Unauthorized),
        pool.after_confirmation(stranger, subaccount, now, reply) == pool,
{
}

/// The sum of deposits grows by what is appended.
pub proof fn lemma_total_push(deposits: Seq<DepositModel>, deposit: DepositModel)
    ensures
        deposits_total(deposits.push(deposit)) == deposits_total(deposits) + deposit.amount,
{
    assert(deposits.push(deposit).drop_last() =~= deposits);
}

/// The sum of deposits shrinks by what is removed, and is at least as
/// large as any one of them.
pub proof fn lemma_total_remove(deposits: Seq<DepositModel>, at: int)
    requires
        0 <= at < deposits.len(),
    ensures
        deposits_total(deposits.remove(at)) == deposits_total(deposits) - deposits[at].amount,
        deposits_total(deposits.remove(at)) >= 0,
    decreases deposits.len(),
{
    if at == deposits.len() - 1 {
        assert(deposits.remove(at) =~= deposits.drop_last());
        lemma_total_nonnegative(deposits.drop_last());
    } else {
        assert(deposits.remove(at).drop_last() =~= deposits.drop_last().remove(at));
        assert(deposits.remove(at).last() == deposits.last());
        lemma_total_remove(deposits.drop_last(), at);
    }
}

/// A sum of deposits is not negative.
pub proof fn lemma_total_nonnegative(deposits: Seq<DepositModel>)
    ensures
        deposits_total(deposits) >= 0,
    decreases deposits.len(),
{
    if deposits.len() > 0 {
        lemma_total_nonnegative(deposits.drop_last());
    }
}

/// A sum over accounts is not negative.
pub proof fn lemma_accounts_total_nonnegative(accounts: Seq<AccountModel>)
    ensures
        accounts_total(accounts) >= 0,
    decreases accounts.len(),
{
    if accounts.len() > 0 {
        lemma_accounts_total_nonnegative(accounts.drop_last());
        lemma_total_nonnegative(accounts.last().deposits);
    }
}

/// Replacing one account changes the sum over the accounts by the change
/// of that account's own sum.
pub proof fn lemma_accounts_total_update(
    accounts: Seq<AccountModel>,
    at: int,
    account: AccountModel,
)
    requires
        0 <= at < accounts.len(),
    ensures
        accounts_total(accounts.update(at, account)) == accounts_total(accounts) - deposits_total(
            accounts[at].deposits,
        ) + deposits_total(account.deposits),
        accounts_total(accounts) >= deposits_total(accounts[at].deposits),
    decreases accounts.len(),
{
    let changed = accounts.update(at, account);
    if at == accounts.len() - 1 {
        assert(changed.drop_last() =~= accounts.drop_last());
        lemma_accounts_total_nonnegative(accounts.drop_last());
    } else {
        assert(changed.drop_last() =~= accounts.drop_last().update(at, account));
        assert(changed.last() == accounts.last());
        lemma_accounts_total_update(accounts.drop_last(), at, account);
        lemma_total_nonnegative(accounts.last().deposits);
    }
}

/// Replacing one identity's deposits changes the sum of the pool by the
/// change of that identity's sum.
pub proof fn lemma_staked_sum_with_deposits(
    pool: PoolModel,
    owner: Seq<u8>,
    deposits: Seq<DepositModel>,
)
    ensures
        pool.with_deposits(owner, deposits).staked_sum() == pool.staked_sum() - deposits_total(
            pool.deposits_of(owner),
        ) + deposits_total(deposits),
        pool.staked_sum() >= deposits_total(pool.deposits_of(owner)),
{
    let at = pool.account_of(owner);
    lemma_key_position(pool.owners(), owner);
    if at < pool.accounts.len() {
        lemma_accounts_total_update(pool.accounts, at, AccountModel { owner, deposits });
    } else {
        let grown = pool.accounts.push(AccountModel { owner, deposits });
        assert(grown.drop_last() =~= pool.accounts);
        assert(deposits_total(Seq::<DepositModel>::empty()) == 0);
        lemma_accounts_total_nonnegative(pool.accounts);
    }
}

/// The pool before anything happened is balanced: its running sum is the
/// sum of its deposits.
pub proof fn lemma_empty_is_balanced()
    ensures
        PoolModel::empty().balanced(),
{
}

/// A confirmation keeps a balanced pool balanced, whether it succeeds or
/// fails.
pub proof fn lemma_confirmation_keeps_balance(
    pool: PoolModel,
    caller: Seq<u8>,
    subaccount: Seq<u8>,
    now: u64,
    reply: Option<u64>,
)
    requires
        pool.balanced(),
        pool.confirmation_outcome(caller, subaccount, now, reply) is None ==> pool.total_staked
            + reply->0 <= u64::MAX,
    ensures
        pool.after_confirmation_check(caller, subaccount, now).balanced(),
        pool.after_confirmation(caller, subaccount, now, reply).balanced(),
{
    if pool.confirmation_outcome(caller, subaccount, now, reply) is None {
        let added = pool.confirmed_deposit(subaccount, now, reply->0);
        let deposits = pool.deposits_of(caller).push(added);
        lemma_total_push(pool.deposits_of(caller), added);
        lemma_staked_sum_with_deposits(pool, caller, deposits);
    }
}

/// A withdrawal that passed its checks, and whose transfer went through,
/// removes exactly the deposit at the position asked for: the caller's
/// other deposits keep their order, nobody else's deposits change, and
/// the intentions stay.
pub proof fn lemma_withdrawal_removes_one(
    pool: PoolModel,
    caller: Seq<u8>,
    index: int,
    now: u64,
)
    requires
        pool.wf(),
        0 <= index,
        pool.withdrawal_fault(caller, index, now) is None,
    ensures
        ({
            let deposit = pool.deposits_of(caller)[index];
            let after = pool.after_withdrawal(caller, deposit.subaccount, deposit.amount);
            &&& pool.deposit_under(caller, deposit.subaccount) == index
            &&& after.deposits_of(caller) == pool.deposits_of(caller).remove(index)
            &&& after.deposits_of(caller).len() == pool.deposits_of(caller).len() - 1
            &&& forall|other: Seq<u8>|
                other != caller ==> #[trigger] after.deposits_of(other) == pool.deposits_of(other)
            &&& after.pending == pool.pending
            &&& after.total_staked == floored_difference(pool.total_staked, deposit.amount)
        }),
{
    let held = pool.deposits_of(caller);
    let deposit = held[index];
    pool.lemma_deposits_of_wf(caller);
    assert forall|j: int| 0 <= j < index implies deposit_keys(held)[j] != deposit.subaccount by {
        assert(deposit_keys(held)[index] == deposit.subaccount);
    }
    lemma_first_from_is(deposit_keys(held), deposit.subaccount, 0, index);
    pool.lemma_withdrawal_keeps_wf(caller, deposit.subaccount, deposit.amount);
    let rest = held.remove(index);
    lemma_with_deposits_touches_one(pool, caller, rest);
    let replaced = pool.with_deposits(caller, rest);
    let after = pool.after_withdrawal(caller, deposit.subaccount, deposit.amount);
    assert(after.accounts == replaced.accounts);
    assert(after.owners() =~= replaced.owners());
    assert(after.deposits_of(caller) == replaced.deposits_of(caller));
    assert forall|other: Seq<u8>| other != caller implies #[trigger] after.deposits_of(other)
        == pool.deposits_of(other) by {
        assert(after.deposits_of(other) == replaced.deposits_of(other));
    }
}

/// Replacing one identity's deposits gives that identity those deposits
/// and touches nobody else's.
pub proof fn lemma_with_deposits_touches_one(
    pool: PoolModel,
    owner: Seq<u8>,
    deposits: Seq<DepositModel>,
)
    ensures
        pool.with_deposits(owner, deposits).deposits_of(owner) == deposits,
        forall|other: Seq<u8>|
            other != owner ==> #[trigger] pool.with_deposits(owner, deposits).deposits_of(other)
                == pool.deposits_of(other),
{
    let after = pool.with_deposits(owner, deposits);
    let at = pool.account_of(owner);
    lemma_key_position(pool.owners(), owner);
    if at < pool.accounts.len() {
        assert(after.owners() =~= pool.owners());
    } else {
        assert(after.owners() =~= pool.owners().push(owner));
        lemma_first_from_is(after.owners(), owner, 0, at);
    }
    assert forall|other: Seq<u8>| other != owner implies #[trigger] after.deposits_of(other)
        == pool.deposits_of(other) by {
        let there = pool.account_of(other);
        lemma_key_position(pool.owners(), other);
        if there < pool.accounts.len() {
            lemma_first_from_is(after.owners(), other, 0, there);
        } else {
            lemma_first_from_is(after.owners(), other, 0, after.owners().len() as int);
        }
    }
}

/// A withdrawal that passed its checks, and whose transfer went through,
/// keeps a balanced pool balanced.
pub proof fn lemma_withdrawal_keeps_balance(pool: PoolModel, caller: Seq<u8>, index: int, now: u64)
    requires
        pool.wf(),
        pool.balanced(),
        0 <= index,
        pool.withdrawal_fault(caller, index, now) is None,
    ensures
        pool.after_withdrawal(
            caller,
            pool.deposits_of(caller)[index].subaccount,
            pool.deposits_of(caller)[index].amount,
        ).balanced(),
{
    let held = pool.deposits_of(caller);
    let deposit = held[index];
    lemma_withdrawal_removes_one(pool, caller, index, now);
    lemma_total_remove(held, index);
    lemma_staked_sum_with_deposits(pool, caller, held.remove(index));
}

/// What neither stakes nor pays out keeps a balanced pool balanced.
pub proof fn lemma_bookkeeping_keeps_balance(
    pool: PoolModel,
    caller: Seq<u8>,
    amount: u64,
    lock_period: u64,
    now: u64,
)
    requires
        pool.balanced(),
    ensures
        pool.after_allocation().balanced(),
        pool.after_reward_lookup().balanced(),
        pool.after_intention(caller, amount, lock_period, now).balanced(),
        pool.after_cleanup(now).balanced(),
{
}

/// Intentions of which none has expired are all live.
pub proof fn lemma_all_live(pending: Seq<IntentionModel>, now: u64)
    requires
        forall|i: int| 0 <= i < pending.len() ==> !(#[trigger] pending[i]).expired_at(now),
    ensures
        live_intentions(pending, now) == pending,
    decreases pending.len(),
{
    reveal(Seq::filter);
    if pending.len() > 0 {
        let front = pending.drop_last();
        assert forall|i: int| 0 <= i < front.len() implies !(#[trigger] front[i]).expired_at(now) by {
            assert(front[i] == pending[i]);
        }
        lemma_all_live(front, now);
        assert(pending.last() == pending[pending.len() - 1]);
        assert(front.push(pending.last()) =~= pending);
    }
}

/// A second removal of expired intentions finds nothing to remove, as
/// long as no intention that the first one left has expired since.
pub proof fn lemma_second_cleanup_removes_nothing(pool: PoolModel, first: u64, second: u64)
    requires
        pool.wf(),
        forall|i: int|
            0 <= i < pool.pending.len() && !(#[trigger] pool.pending[i]).expired_at(first)
                ==> !pool.pending[i].expired_at(second),
    ensures
        pool.after_cleanup(first).expired_count(second) == 0,
        pool.after_cleanup(first).after_cleanup(second) == pool.after_cleanup(first),
{
    let live = live_intentions(pool.pending, first);
    assert(pool.pending_keys() =~= Seq::new(pool.pending.len(), |i: int| pool.pending[i].subaccount));
    lemma_live_intentions(pool.pending, first, pool.next_subaccount_id);
    assert forall|i: int| 0 <= i < live.len() implies !(#[trigger] live[i]).expired_at(second) by {
        assert(pool.pending.contains(live[i]));
        let j = choose|j: int| 0 <= j < pool.pending.len() && pool.pending[j] == live[i];
        assert(!pool.pending[j].expired_at(first));
    }
    lemma_all_live(live, second);
}

/// Removing expired intentions twice at the same time is removing them
/// once.
pub proof fn lemma_cleanup_is_idempotent(pool: PoolModel, now: u64)
    requires
        pool.wf(),
    ensures
        pool.after_cleanup(now).expired_count(now) == 0,
        pool.after_cleanup(now).after_cleanup(now) == pool.after_cleanup(now),
{
    lemma_second_cleanup_removes_nothing(pool, now, now);
}

/// The sum of the first amounts grows with their number and is never
/// negative.
pub proof fn lemma_staked_before_grows(stakes: Seq<StakeModel>, fewer: int, more: int)
    requires
        fewer <= more,
    ensures
        0 <= staked_before(stakes, fewer) <= staked_before(stakes, more),
    decreases more,
{
    if more > 0 {
        if fewer < more {
            lemma_staked_before_grows(stakes, fewer, more - 1);
        } else {
            lemma_staked_before_grows(stakes, fewer - 1, more - 1);
        }
    }
}

/// The sum of the first shares grows with their number and is never
/// negative.
pub proof fn lemma_shares_before_grows(run: DistributionModel, fewer: int, more: int)
    requires
        fewer <= more,
    ensures
        0 <= run.shares_before(fewer) <= run.shares_before(more),
    decreases more,
{
    if more > 0 {
        if fewer < more {
            lemma_shares_before_grows(run, fewer, more - 1);
        } else {
            lemma_shares_before_grows(run, fewer - 1, more - 1);
        }
    }
}

/// As long as the first deposits sum to no more than the running sum,
/// their shares sum to no more than the amount that is distributed.
pub proof fn lemma_shares_within_amount(run: DistributionModel, count: int)
    requires
        run.total_staked > 0,
        0 <= count <= run.stakes.len(),
        staked_before(run.stakes, count) <= run.total_staked,
    ensures
        run.shares_before(count) * run.total_staked <= staked_before(run.stakes, count)
            * run.amount,
        0 <= run.shares_before(count) <= run.amount,
    decreases count,
{
    let total = run.total_staked as int;
    let amount = run.amount as int;
    if count > 0 {
        let stake = run.stakes[count - 1].deposit.amount;
        lemma_staked_before_grows(run.stakes, count - 1, count);
        lemma_staked_before_grows(run.stakes, 0, count - 1);
        lemma_shares_within_amount(run, count - 1);
        lemma_share_within_amount(stake, run.amount, run.total_staked);
        let share = run.share(count - 1) as int;
        let product = (stake as int) * amount;
        assert(share == product / total);
        vstd::arithmetic::div_mod::lemma_fundamental_div_mod(product, total);
        assert(0 <= product % total);
        assert(share * total <= product) by (nonlinear_arith)
            requires
                product == total * (product / total) + product % total,
                share == product / total,
                0 <= product % total,
        ;
        let before = run.shares_before(count - 1);
        let staked = staked_before(run.stakes, count - 1);
        assert((before + share) * total <= (staked + stake) * amount) by (nonlinear_arith)
            requires
                before * total <= staked * amount,
                share * total <= product,
                product == (stake as int) * amount,
        ;
    }
    let shares = run.shares_before(count);
    let staked = staked_before(run.stakes, count);
    lemma_shares_before_grows(run, 0, count);
    assert(shares <= amount) by (nonlinear_arith)
        requires
            shares * total <= staked * amount,
            0 <= staked <= total,
            0 < total,
            0 <= amount,
            0 <= shares,
    ;
}

/// In a distribution whose snapshot the running sum covers, the share of
/// the deposit under the cursor always fits: what is settled never
/// exceeds the amount that is distributed.
pub proof fn lemma_covered_distribution_has_room(run: DistributionModel)
    requires
        run.wf(),
        run.covered(),
        run.within_shares(),
        !run.finished(),
    ensures
        run.settled + run.share(run.cursor) <= run.amount,
        run.settled + run.share(run.cursor) <= u64::MAX,
{
    lemma_staked_before_grows(run.stakes, run.cursor + 1, run.stakes.len() as int);
    lemma_shares_within_amount(run, run.cursor + 1);
}

/// Passing over deposits and recording answers keep a covered
/// distribution within its shares.
pub proof fn lemma_distribution_stays_within_shares(run: DistributionModel, succeeded: bool)
    requires
        run.wf(),
        run.covered(),
        run.within_shares(),
    ensures
        run.advanced().wf() && run.advanced().covered() && run.advanced().within_shares(),
        run.recorded(succeeded).wf() && run.recorded(succeeded).covered() && run.recorded(
            succeeded,
        ).within_shares(),
{
    lemma_next_due(run, run.cursor);
    lemma_shares_before_grows(run, run.cursor, run.next_due(run.cursor));
    let advanced = run.advanced();
    assert(advanced.shares_before(advanced.cursor) == run.shares_before(advanced.cursor)) by {
        lemma_shares_before_same(run, advanced, advanced.cursor);
    }
    if !run.finished() {
        lemma_covered_distribution_has_room(run);
        let recorded = run.recorded(succeeded);
        lemma_shares_before_same(run, recorded, recorded.cursor);
    }
}

/// The shares depend on the snapshot, the amount and the running sum
/// alone.
pub proof fn lemma_shares_before_same(one: DistributionModel, other: DistributionModel, count: int)
    requires
        one.stakes == other.stakes,
        one.amount == other.amount,
        one.total_staked == other.total_staked,
    ensures
        one.shares_before(count) == other.shares_before(count),
    decreases count,
{
    if count > 0 {
        lemma_shares_before_same(one, other, count - 1);
    }
}

/// The sum of the first amounts of two snapshots laid end to end.
pub proof fn lemma_staked_before_concat(front: Seq<StakeModel>, back: Seq<StakeModel>, count: int)
    requires
        0 <= count <= back.len(),
    ensures
        staked_before(front + back, front.len() + count) == staked_before(
            front,
            front.len() as int,
        ) + staked_before(back, count),
    decreases count,
{
    if count > 0 {
        lemma_staked_before_concat(front, back, count - 1);
        assert((front + back)[front.len() + count - 1] == back[count - 1]);
    } else {
        lemma_staked_before_prefix(front + back, front, front.len() as int);
    }
}

/// The sum of the first amounts looks at no more than those.
pub proof fn lemma_staked_before_prefix(one: Seq<StakeModel>, other: Seq<StakeModel>, count: int)
    requires
        count <= one.len(),
        count <= other.len(),
        forall|k: int| 0 <= k < count ==> one[k] == other[k],
    ensures
        staked_before(one, count) == staked_before(other, count),
    decreases count,
{
    if count > 0 {
        lemma_staked_before_prefix(one, other, count - 1);
    }
}

/// The stakes of one account sum to what its deposits sum to.
pub proof fn lemma_staked_of_account(account: AccountModel, count: int)
    requires
        0 <= count <= account.deposits.len(),
    ensures
        staked_before(stakes_of(account), count) == deposits_total(account.deposits.take(count)),
    decreases count,
{
    if count > 0 {
        lemma_staked_of_account(account, count - 1);
        assert(account.deposits.take(count).drop_last() =~= account.deposits.take(count - 1));
        assert(account.deposits.take(count).last() == account.deposits[count - 1]);
    } else {
        assert(account.deposits.take(0) =~= Seq::<DepositModel>::empty());
    }
}

/// The snapshot of a pool sums to what its deposits sum to.
pub proof fn lemma_snapshot_total(accounts: Seq<AccountModel>)
    ensures
        staked_before(snapshot(accounts), snapshot(accounts).len() as int) == accounts_total(
            accounts,
        ),
    decreases accounts.len(),
{
    if accounts.len() > 0 {
        let front = snapshot(accounts.drop_last());
        let back = stakes_of(accounts.last());
        lemma_snapshot_total(accounts.drop_last());
        lemma_staked_before_concat(front, back, back.len() as int);
        lemma_staked_of_account(accounts.last(), accounts.last().deposits.len() as int);
        assert(accounts.last().deposits.take(accounts.last().deposits.len() as int)
            =~= accounts.last().deposits);
    }
}

/// A distribution that starts on a pool whose running sum is at least
/// the sum of its deposits, as in every balanced pool, is covered: each
/// transfer that goes through can be recorded.
pub proof fn lemma_distribution_of_balanced_pool(pool: PoolModel, run: DistributionModel)
    requires
        pool.staked_sum() <= pool.total_staked,
        run.stakes == snapshot(pool.accounts),
        run.total_staked == pool.total_staked,
        run.total_staked > 0,
        run.cursor == 0,
        run.settled == 0,
    ensures
        run.wf(),
        run.covered(),
        run.within_shares(),
{
    lemma_snapshot_total(pool.accounts);
}

/// Replacing one deposit changes the sum of the deposits by the change of
/// its amount.
pub proof fn lemma_total_update(deposits: Seq<DepositModel>, at: int, deposit: DepositModel)
    requires
        0 <= at < deposits.len(),
    ensures
        deposits_total(deposits.update(at, deposit)) == deposits_total(deposits)
            - deposits[at].amount + deposit.amount,
    decreases deposits.len(),
{
    let changed = deposits.update(at, deposit);
    if at == deposits.len() - 1 {
        assert(changed.drop_last() =~= deposits.drop_last());
    } else {
        assert(changed.drop_last() =~= deposits.drop_last().update(at, deposit));
        assert(changed.last() == deposits.last());
        lemma_total_update(deposits.drop_last(), at, deposit);
    }
}

/// While rewards are distributed, the sum of the deposits runs ahead of
/// the running sum by what is settled: a transfer that went through adds
/// its share to both, as long as its deposit is still there and its
/// amount has room for the share.
pub proof fn lemma_reward_transfer_keeps_step(
    pool: PoolModel,
    run: DistributionModel,
    succeeded: bool,
)
    requires
        run.wf(),
        run.rewards(),
        pool.staked_sum() == pool.total_staked + run.settled,
        succeeded && !run.finished() ==> ({
            let stake = run.stakes[run.cursor];
            let held = pool.deposits_of(stake.owner);
            let at = pool.deposit_under(stake.owner, stake.deposit.subaccount);
            &&& at < held.len()
            &&& held[at].amount + run.share(run.cursor) <= u64::MAX
            &&& run.settled + run.share(run.cursor) <= u64::MAX
        }),
    ensures
        pool.after_transfer(run, succeeded).staked_sum() == pool.after_transfer(
            run,
            succeeded,
        ).total_staked + run.recorded(succeeded).settled,
{
    if succeeded && !run.finished() {
        let stake = run.stakes[run.cursor];
        let held = pool.deposits_of(stake.owner);
        let at = pool.deposit_under(stake.owner, stake.deposit.subaccount);
        lemma_key_position(deposit_keys(held), stake.deposit.subaccount);
        let raised = DepositModel {
            amount: (held[at].amount + run.share(run.cursor)) as u64,
            ..held[at]
        };
        lemma_total_update(held, at, raised);
        lemma_staked_sum_with_deposits(pool, stake.owner, held.update(at, raised));
    }
}

/// While a slashing runs, the sum of the deposits runs behind the running
/// sum by what is settled: a transfer that went through takes its share
/// from both, as long as its deposit is still there and holds the share.
pub proof fn lemma_slash_transfer_keeps_step(
    pool: PoolModel,
    run: DistributionModel,
    succeeded: bool,
)
    requires
        run.wf(),
        !run.rewards(),
        pool.staked_sum() == pool.total_staked - run.settled,
        succeeded && !run.finished() ==> ({
            let stake = run.stakes[run.cursor];
            let held = pool.deposits_of(stake.owner);
            let at = pool.deposit_under(stake.owner, stake.deposit.subaccount);
            &&& at < held.len()
            &&& held[at].amount >= run.share(run.cursor)
            &&& run.settled + run.share(run.cursor) <= u64::MAX
        }),
    ensures
        pool.after_transfer(run, succeeded).staked_sum() == pool.after_transfer(
            run,
            succeeded,
        ).total_staked - run.recorded(succeeded).settled,
{
    if succeeded && !run.finished() {
        let stake = run.stakes[run.cursor];
        let held = pool.deposits_of(stake.owner);
        let at = pool.deposit_under(stake.owner, stake.deposit.subaccount);
        lemma_key_position(deposit_keys(held), stake.deposit.subaccount);
        let lowered = DepositModel {
            amount: (held[at].amount - run.share(run.cursor)) as u64,
            ..held[at]
        };
        lemma_total_update(held, at, lowered);
        lemma_staked_sum_with_deposits(pool, stake.owner, held.update(at, lowered));
    }
}

/// Settling a distribution brings the running sum back in step with the
/// sum of the deposits, as long as the running sum has room for what
/// rewards add.
pub proof fn lemma_settling_restores_balance(pool: PoolModel, run: DistributionModel)
    requires
        run.rewards() ==> pool.staked_sum() == pool.total_staked + run.settled
            && pool.total_staked + run.settled <= u64::MAX,
        !run.rewards() ==> pool.staked_sum() == pool.total_staked - run.settled,
    ensures
        pool.after_distribution(run).balanced(),
{
    lemma_accounts_total_nonnegative(pool.accounts);
}

/// Only a withdrawal takes a deposit away: after every other operation
/// each identity has at least as many deposits as before.
pub proof fn lemma_only_withdrawal_removes(
    pool: PoolModel,
    caller: Seq<u8>,
    subaccount: Seq<u8>,
    amount: u64,
    lock_period: u64,
    now: u64,
    reply: Option<u64>,
    run: DistributionModel,
    succeeded: bool,
    owner: Seq<u8>,
)
    ensures
        pool.after_allocation().deposits_of(owner).len() == pool.deposits_of(owner).len(),
        pool.after_reward_lookup().deposits_of(owner).len() == pool.deposits_of(owner).len(),
        pool.after_intention(caller, amount, lock_period, now).deposits_of(owner).len()
            == pool.deposits_of(owner).len(),
        pool.after_confirmation_check(caller, subaccount, now).deposits_of(owner).len()
            == pool.deposits_of(owner).len(),
        pool.after_confirmation(caller, subaccount, now, reply).deposits_of(owner).len()
            >= pool.deposits_of(owner).len(),
        pool.after_cleanup(now).deposits_of(owner).len() == pool.deposits_of(owner).len(),
        pool.after_transfer(run, succeeded).deposits_of(owner).len() == pool.deposits_of(
            owner,
        ).len(),
        pool.after_distribution(run).deposits_of(owner).len() == pool.deposits_of(owner).len(),
{
    assert(pool.after_allocation().owners() =~= pool.owners());
    assert(pool.after_reward_lookup().owners() =~= pool.owners());
    assert(pool.after_intention(caller, amount, lock_period, now).owners() =~= pool.owners());
    assert(pool.after_confirmation_check(caller, subaccount, now).owners() =~= pool.owners());
    assert(pool.after_cleanup(now).owners() =~= pool.owners());
    assert(pool.after_distribution(run).owners() =~= pool.owners());
    if pool.confirmation_outcome(caller, subaccount, now, reply) is None {
        let grown = pool.deposits_of(caller).push(
            pool.confirmed_deposit(subaccount, now, reply->0),
        );
        let replaced = pool.with_deposits(caller, grown);
        let after = pool.after_confirmation(caller, subaccount, now, reply);
        lemma_with_deposits_touches_one(pool, caller, grown);
        assert(after.accounts == replaced.accounts);
        assert(after.owners() =~= replaced.owners());
        assert(after.deposits_of(owner) == replaced.deposits_of(owner));
    } else {
        assert(pool.after_confirmation(caller, subaccount, now, reply).owners() =~= pool.owners());
    }
    if succeeded && !run.finished() {
        let stake = run.stakes[run.cursor];
        let held = pool.deposits_of(stake.owner);
        let at = pool.deposit_under(stake.owner, stake.deposit.subaccount);
        lemma_key_position(deposit_keys(held), stake.deposit.subaccount);
        if at < held.len() {
            let after = pool.after_transfer(run, succeeded);
            let amount = if run.rewards() {
                capped_sum(held[at].amount, run.share(run.cursor))
            } else {
                floored_difference(held[at].amount, run.share(run.cursor))
            };
            let changed = held.update(at, DepositModel { amount, ..held[at] });
            lemma_with_deposits_touches_one(pool, stake.owner, changed);
            assert(after == pool.with_deposits(stake.owner, changed));
        }
    }
}

/// The owner of an intention who confirms it before its lifetime is over,
/// with a balance of at least the amount announced, succeeds: no check
/// stands in the way, whatever else the pool holds.
pub proof fn lemma_owner_confirms_in_time(
    pool: PoolModel,
    caller: Seq<u8>,
    subaccount: Seq<u8>,
    now: u64,
    balance: u64,
)
    requires
        pool.intention_of(subaccount) < pool.pending.len(),
        pool.pending[pool.intention_of(subaccount)].user == caller,
        now <= pool.pending[pool.intention_of(subaccount)].created_time + INTENTION_LIFETIME_NS,
        balance >= pool.pending[pool.intention_of(subaccount)].expected_amount,
    ensures
        pool.confirmation_fault(caller, subaccount, now) is None,
        pool.after_confirmation_check(caller, subaccount, now) == pool,
        pool.confirmation_outcome(caller, subaccount, now, Some(balance)) is None,
{
}

/// A confirmation that succeeds makes the caller's newest deposit of the
/// balance observed, with the time of the confirmation and the lock
/// period announced, and takes the intention away.
pub proof fn lemma_confirmation_stakes_the_balance(
    pool: PoolModel,
    caller: Seq<u8>,
    subaccount: Seq<u8>,
    now: u64,
    balance: u64,
)
    requires
        pool.wf(),
        pool.confirmation_outcome(caller, subaccount, now, Some(balance)) is None,
    ensures
        ({
            let after = pool.after_confirmation(caller, subaccount, now, Some(balance));
            let intention = pool.pending[pool.intention_of(subaccount)];
            &&& after.deposits_of(caller) == pool.deposits_of(caller).push(
                DepositModel {
                    amount: balance,
                    deposit_time: now,
                    lock_period: intention.lock_period,
                    subaccount,
                },
            )
            &&& forall|other: Seq<u8>|
                other != caller ==> #[trigger] after.deposits_of(other) == pool.deposits_of(other)
            &&& after.pending == pool.pending.remove(pool.intention_of(subaccount))
        }),
{
    let grown = pool.deposits_of(caller).push(pool.confirmed_deposit(subaccount, now, balance));
    let replaced = pool.with_deposits(caller, grown);
    let after = pool.after_confirmation(caller, subaccount, now, Some(balance));
    lemma_with_deposits_touches_one(pool, caller, grown);
    assert(after.accounts == replaced.accounts);
    assert(after.owners() =~= replaced.owners());
    assert(after.deposits_of(caller) == replaced.deposits_of(caller));
    assert forall|other: Seq<u8>| other != caller implies #[trigger] after.deposits_of(other)
        == pool.deposits_of(other) by {
        assert(after.deposits_of(other) == replaced.deposits_of(other));
    }
}

/// A deposit stays locked for its lock period, counted in seconds from
/// its confirmation: before that a withdrawal fails, whatever the ledger
/// would say, and from then on the lock stands in no withdrawal's way.
pub proof fn lemma_lock_lasts_its_period(pool: PoolModel, caller: Seq<u8>, index: int, now: u64)
    requires
        0 <= index < pool.deposits_of(caller).len(),
    ensures
        now < pool.deposits_of(caller)[index].deposit_time + pool.deposits_of(
            caller,
        )[index].lock_period * NANOS_PER_SECOND ==> pool.withdrawal_fault(caller, index, now)
            == Some(Fault::LockPeriodNotExpired),
        now >= pool.deposits_of(caller)[index].deposit_time + pool.deposits_of(
            caller,
        )[index].lock_period * NANOS_PER_SECOND ==> pool.withdrawal_fault(caller, index, now)
            is None,
{
}

/// A deposit that was just confirmed cannot be withdrawn before its lock
/// period, counted in seconds, has passed since the confirmation.
pub proof fn lemma_confirmed_deposit_is_locked(
    pool: PoolModel,
    caller: Seq<u8>,
    subaccount: Seq<u8>,
    confirmed: u64,
    balance: u64,
    now: u64,
)
    requires
        pool.wf(),
        pool.confirmation_outcome(caller, subaccount, confirmed, Some(balance)) is None,
        now < confirmed + pool.pending[pool.intention_of(subaccount)].lock_period
            * NANOS_PER_SECOND,
    ensures
        pool.after_confirmation(caller, subaccount, confirmed, Some(balance)).withdrawal_fault(
            caller,
            pool.deposits_of(caller).len() as int,
            now,
        ) == Some(Fault::LockPeriodNotExpired),
{
    lemma_confirmation_stakes_the_balance(pool, caller, subaccount, confirmed, balance);
}

/// Asking for the reward subaccount touches neither the deposits nor the
/// running sum nor the intentions.
pub proof fn lemma_reward_lookup_keeps_stakes(pool: PoolModel)
    ensures
        pool.after_reward_lookup().accounts == pool.accounts,
        pool.after_reward_lookup().total_staked == pool.total_staked,
        pool.after_reward_lookup().pending == pool.pending,
{
}

} // verus!
