//! The pool as mathematics: its state as sequences of plain values, and
//! each operation as a function from state to state. The executable pool
//! is specified against these functions, and the laws of the pool are
//! proved of them.

use vstd::prelude::*;
use crate::ledger::TRANSFER_FEE;
use crate::subaccount::{
    issued_before, lemma_issued_is_not_next, lemma_subaccount_number, subaccount_bytes,
};
use crate::types::{DepositModel, Fault, IntentionModel};

verus! {

/// How long an intention can be confirmed after its creation: 15 minutes,
/// in nanoseconds.
pub const INTENTION_LIFETIME_NS: u64 = 900_000_000_000;

/// Nanoseconds in one second: times are in nanoseconds, lock periods in
/// seconds.
pub const NANOS_PER_SECOND: u64 = 1_000_000_000;

/// What is left of `amount` once the ledger has taken its fee.
pub open spec fn minus_fee(amount: u64) -> u64 {
    if amount > TRANSFER_FEE {
        (amount - TRANSFER_FEE) as u64
    } else {
        0
    }
}

/// `a + b`, held at the largest 64-bit value.
pub open spec fn capped_sum(a: u64, b: u64) -> u64 {
    if a + b > u64::MAX {
        u64::MAX
    } else {
        (a + b) as u64
    }
}

/// `a - b`, held at zero.
pub open spec fn floored_difference(a: u64, b: u64) -> u64 {
    if a < b {
        0
    } else {
        (a - b) as u64
    }
}

impl IntentionModel {
    /// Whether the intention can no longer be confirmed at `now`.
    pub open spec fn expired_at(self, now: u64) -> bool {
        now > self.created_time + INTENTION_LIFETIME_NS
    }
}

impl DepositModel {
    /// The time, in nanoseconds, from which the deposit can be withdrawn:
    /// its lock period, which is kept in seconds, after its confirmation.
    pub open spec fn unlock_time(self) -> int {
        self.deposit_time + self.lock_period * NANOS_PER_SECOND
    }

    /// Whether the deposit cannot be withdrawn yet at `now`.
    pub open spec fn locked_at(self, now: u64) -> bool {
        now < self.unlock_time()
    }
}

/// The first position at or after `from` at which `keys` holds `key`, or
/// the length of `keys` if there is none.
pub open spec fn first_from(keys: Seq<Seq<u8>>, key: Seq<u8>, from: int) -> int
    decreases keys.len() - from,
{
    if from >= keys.len() {
        keys.len() as int
    } else if from >= 0 && keys[from] == key {
        from
    } else {
        first_from(keys, key, from + 1)
    }
}

/// The first position at which `keys` holds `key`, or the length of
/// `keys` if it holds it nowhere.
pub open spec fn key_position(keys: Seq<Seq<u8>>, key: Seq<u8>) -> int {
    first_from(keys, key, 0)
}

/// What `first_from` finds is the first match at or after `from`.
pub proof fn lemma_first_from(keys: Seq<Seq<u8>>, key: Seq<u8>, from: int)
    requires
        0 <= from <= keys.len(),
    ensures
        from <= first_from(keys, key, from) <= keys.len(),
        first_from(keys, key, from) < keys.len() ==> keys[first_from(keys, key, from)] == key,
        forall|j: int| from <= j < first_from(keys, key, from) ==> keys[j] != key,
    decreases keys.len() - from,
{
    if from < keys.len() && keys[from] != key {
        lemma_first_from(keys, key, from + 1);
    }
}

/// The first match at or after `from` is what `first_from` finds.
pub proof fn lemma_first_from_is(keys: Seq<Seq<u8>>, key: Seq<u8>, from: int, at: int)
    requires
        0 <= from <= at <= keys.len(),
        forall|j: int| from <= j < at ==> keys[j] != key,
        at < keys.len() ==> keys[at] == key,
    ensures
        first_from(keys, key, from) == at,
    decreases at - from,
{
    if from < at {
        lemma_first_from_is(keys, key, from + 1, at);
    }
}

/// What `key_position` finds is the first match.
pub proof fn lemma_key_position(keys: Seq<Seq<u8>>, key: Seq<u8>)
    ensures
        0 <= key_position(keys, key) <= keys.len(),
        key_position(keys, key) < keys.len() ==> keys[key_position(keys, key)] == key,
        forall|j: int| 0 <= j < key_position(keys, key) ==> keys[j] != key,
{
    lemma_first_from(keys, key, 0);
}

/// One identity's deposits.
#[verifier::ext_equal]
pub struct AccountModel {
    pub owner: Seq<u8>,
    pub deposits: Seq<DepositModel>,
}

/// The whole state of the pool.
#[verifier::ext_equal]
pub struct PoolModel {
    /// The identities that ever had a deposit, in the order in which they
    /// got their first, each with its deposits.
    pub accounts: Seq<AccountModel>,
    /// The running sum of what is staked.
    pub total_staked: u64,
    /// The number of the next subaccount to issue.
    pub next_subaccount_id: u64,
    /// The intentions that were neither confirmed nor removed, oldest
    /// first.
    pub pending: Seq<IntentionModel>,
    /// The subaccount that rewards are paid from, once it was asked for.
    pub reward_subaccount: Option<Seq<u8>>,
}

/// The sum of the amounts of `deposits`.
pub open spec fn deposits_total(deposits: Seq<DepositModel>) -> int
    decreases deposits.len(),
{
    if deposits.len() == 0 {
        0
    } else {
        deposits_total(deposits.drop_last()) + deposits.last().amount
    }
}

/// The sum of the amounts of all deposits of `accounts`.
pub open spec fn accounts_total(accounts: Seq<AccountModel>) -> int
    decreases accounts.len(),
{
    if accounts.len() == 0 {
        0
    } else {
        accounts_total(accounts.drop_last()) + deposits_total(accounts.last().deposits)
    }
}

/// The subaccounts of `deposits`, in order.
pub open spec fn deposit_keys(deposits: Seq<DepositModel>) -> Seq<Seq<u8>> {
    Seq::new(deposits.len(), |i: int| deposits[i].subaccount)
}

/// What holds of one identity's deposits in a well-formed pool: no two
/// share a subaccount, each subaccount was issued before `next`, and none
/// is among `pending_keys`.
pub open spec fn deposits_wf(
    deposits: Seq<DepositModel>,
    pending_keys: Seq<Seq<u8>>,
    next: u64,
) -> bool {
    &&& deposit_keys(deposits).no_duplicates()
    &&& forall|j: int|
        0 <= j < deposits.len() ==> issued_before(#[trigger] deposits[j].subaccount, next)
            && !pending_keys.contains(deposits[j].subaccount)
}

/// What holds of the deposits of every account in a well-formed pool.
pub open spec fn accounts_wf(
    accounts: Seq<AccountModel>,
    pending_keys: Seq<Seq<u8>>,
    next: u64,
) -> bool {
    forall|a: int| 0 <= a < accounts.len() ==> deposits_wf(#[trigger] accounts[a].deposits, pending_keys, next)
}

impl PoolModel {
    /// The pool before anything happened.
    pub open spec fn empty() -> PoolModel {
        PoolModel {
            accounts: Seq::empty(),
            total_staked: 0,
            next_subaccount_id: 0,
            pending: Seq::empty(),
            reward_subaccount: None,
        }
    }

    /// The owners of the accounts, in order.
    pub open spec fn owners(self) -> Seq<Seq<u8>> {
        Seq::new(self.accounts.len(), |i: int| self.accounts[i].owner)
    }

    /// The subaccounts of the pending intentions, in order.
    pub open spec fn pending_keys(self) -> Seq<Seq<u8>> {
        Seq::new(self.pending.len(), |i: int| self.pending[i].subaccount)
    }

    /// What holds of every pool that the operations can reach: no identity
    /// has two accounts, no subaccount has two intentions or two deposits
    /// of one identity, no subaccount has both an intention and a deposit,
    /// and every subaccount in use was issued by the counter.
    pub open spec fn wf(self) -> bool {
        &&& self.owners().no_duplicates()
        &&& self.pending_keys().no_duplicates()
        &&& forall|i: int|
            0 <= i < self.pending.len() ==> issued_before(
                #[trigger] self.pending[i].subaccount,
                self.next_subaccount_id,
            )
        &&& self.reward_subaccount matches Some(reward) ==> issued_before(
            reward,
            self.next_subaccount_id,
        )
        &&& accounts_wf(self.accounts, self.pending_keys(), self.next_subaccount_id)
    }

    /// The sum of the amounts of all deposits.
    pub open spec fn staked_sum(self) -> int {
        accounts_total(self.accounts)
    }

    /// Whether the running sum is the sum of the deposits.
    pub open spec fn balanced(self) -> bool {
        self.total_staked == self.staked_sum()
    }

    /// The position of `owner`'s account, or the number of accounts if it
    /// has none.
    pub open spec fn account_of(self, owner: Seq<u8>) -> int {
        key_position(self.owners(), owner)
    }

    /// The deposits of `owner`, in the order in which they were confirmed.
    pub open spec fn deposits_of(self, owner: Seq<u8>) -> Seq<DepositModel> {
        if self.account_of(owner) < self.accounts.len() {
            self.accounts[self.account_of(owner)].deposits
        } else {
            Seq::empty()
        }
    }

    /// The position of the intention for `subaccount`, or the number of
    /// intentions if there is none.
    pub open spec fn intention_of(self, subaccount: Seq<u8>) -> int {
        key_position(self.pending_keys(), subaccount)
    }

    /// The pool with `owner`'s deposits replaced by `deposits`; `owner`
    /// gets an account if it had none.
    pub open spec fn with_deposits(self, owner: Seq<u8>, deposits: Seq<DepositModel>) -> PoolModel {
        let account = AccountModel { owner, deposits };
        if self.account_of(owner) < self.accounts.len() {
            PoolModel { accounts: self.accounts.update(self.account_of(owner), account), ..self }
        } else {
            PoolModel { accounts: self.accounts.push(account), ..self }
        }
    }
}

/// What is reported when the balance of an intention's account could not
/// be read.
pub open spec fn balance_query_failed() -> Seq<char> {
    "Failed to check balance"@
}

/// What is reported when the balance of the reward account could not be
/// read.
pub open spec fn reward_query_failed() -> Seq<char> {
    "Failed to check reward balance"@
}

/// The intentions of `pending` that can still be confirmed at `now`.
pub open spec fn live_intentions(pending: Seq<IntentionModel>, now: u64) -> Seq<IntentionModel> {
    pending.filter(|intention: IntentionModel| !intention.expired_at(now))
}

// Issuing subaccounts.
impl PoolModel {
    /// The subaccount that is issued next.
    pub open spec fn next_subaccount(self) -> Seq<u8> {
        subaccount_bytes(self.next_subaccount_id)
    }

    /// The pool once the next subaccount was issued.
    pub open spec fn after_allocation(self) -> PoolModel {
        PoolModel { next_subaccount_id: (self.next_subaccount_id + 1) as u64, ..self }
    }

    /// The subaccount that rewards are paid from: the one remembered, or
    /// else the next one.
    pub open spec fn reward_account(self) -> Seq<u8> {
        match self.reward_subaccount {
            Some(reward) => reward,
            None => self.next_subaccount(),
        }
    }

    /// The pool once the reward subaccount was asked for: it is issued if
    /// it was not yet, and remembered.
    pub open spec fn after_reward_lookup(self) -> PoolModel {
        match self.reward_subaccount {
            Some(_) => self,
            None => PoolModel {
                reward_subaccount: Some(self.next_subaccount()),
                ..self.after_allocation()
            },
        }
    }
}

// Announcing, confirming and forgetting deposits.
impl PoolModel {
    /// The pool once `caller` announced a deposit of `amount` at `now`.
    pub open spec fn after_intention(
        self,
        caller: Seq<u8>,
        amount: u64,
        lock_period: u64,
        now: u64,
    ) -> PoolModel {
        if amount == 0 {
            self
        } else {
            PoolModel {
                pending: self.pending.push(
                    IntentionModel {
                        subaccount: self.next_subaccount(),
                        user: caller,
                        expected_amount: amount,
                        lock_period,
                        created_time: now,
                    },
                ),
                ..self.after_allocation()
            }
        }
    }

    /// Why `caller` cannot confirm the intention for `subaccount` at
    /// `now`, whatever the ledger says; `None` if the ledger decides.
    pub open spec fn confirmation_fault(
        self,
        caller: Seq<u8>,
        subaccount: Seq<u8>,
        now: u64,
    ) -> Option<Fault> {
        let at = self.intention_of(subaccount);
        if at >= self.pending.len() {
            Some(Fault::DepositNotFound)
        } else if self.pending[at].user != caller {
            Some(Fault::Unauthorized)
        } else if self.pending[at].expired_at(now) {
            Some(Fault::DepositExpired)
        } else {
            None
        }
    }

    /// The pool without the intention for `subaccount`.
    pub open spec fn without_intention(self, subaccount: Seq<u8>) -> PoolModel {
        PoolModel { pending: self.pending.remove(self.intention_of(subaccount)), ..self }
    }

    /// The pool once `caller` tried to confirm: an intention found expired
    /// is removed, and nothing else changes.
    pub open spec fn after_confirmation_check(
        self,
        caller: Seq<u8>,
        subaccount: Seq<u8>,
        now: u64,
    ) -> PoolModel {
        if self.confirmation_fault(caller, subaccount, now) == Some(Fault::DepositExpired) {
            self.without_intention(subaccount)
        } else {
            self
        }
    }

    /// Why the confirmation fails when the ledger answered the balance
    /// query with `reply` (`None`: no answer); `None` if it succeeds.
    pub open spec fn confirmation_outcome(
        self,
        caller: Seq<u8>,
        subaccount: Seq<u8>,
        now: u64,
        reply: Option<u64>,
    ) -> Option<Fault> {
        match self.confirmation_fault(caller, subaccount, now) {
            Some(fault) => Some(fault),
            None => match reply {
                None => Some(Fault::TransferFailed(balance_query_failed())),
                Some(balance) => if balance < self.pending[self.intention_of(
                    subaccount,
                )].expected_amount {
                    Some(Fault::InsufficientFunds)
                } else {
                    None
                },
            },
        }
    }

    /// The deposit that a confirmation at `now` with the observed
    /// `balance` makes of the intention for `subaccount`.
    pub open spec fn confirmed_deposit(
        self,
        subaccount: Seq<u8>,
        now: u64,
        balance: u64,
    ) -> DepositModel {
        DepositModel {
            amount: balance,
            deposit_time: now,
            lock_period: self.pending[self.intention_of(subaccount)].lock_period,
            subaccount,
        }
    }

    /// The pool once the confirmation ran with the ledger's `reply`: on
    /// success the observed balance is staked as the caller's newest
    /// deposit and the intention is gone; an expired intention is removed;
    /// every other failure changes nothing.
    pub open spec fn after_confirmation(
        self,
        caller: Seq<u8>,
        subaccount: Seq<u8>,
        now: u64,
        reply: Option<u64>,
    ) -> PoolModel {
        match self.confirmation_outcome(caller, subaccount, now, reply) {
            Some(Fault::DepositExpired) => self.without_intention(subaccount),
            Some(_) => self,
            None => {
                let staked = PoolModel {
                    total_staked: (self.total_staked + reply->0) as u64,
                    ..self.with_deposits(
                        caller,
                        self.deposits_of(caller).push(
                            self.confirmed_deposit(subaccount, now, reply->0),
                        ),
                    )
                };
                PoolModel { pending: self.pending.remove(self.intention_of(subaccount)), ..staked }
            },
        }
    }

    /// The pool once the intentions that expired before `now` were
    /// removed.
    pub open spec fn after_cleanup(self, now: u64) -> PoolModel {
        PoolModel { pending: live_intentions(self.pending, now), ..self }
    }

    /// How many intentions have expired before `now`.
    pub open spec fn expired_count(self, now: u64) -> int {
        self.pending.len() - live_intentions(self.pending, now).len()
    }
}

// Withdrawing.
impl PoolModel {
    /// Why `caller` cannot withdraw its deposit at position `index` at
    /// `now`, whatever the ledger says; `None` if the ledger decides.
    pub open spec fn withdrawal_fault(
        self,
        caller: Seq<u8>,
        index: int,
        now: u64,
    ) -> Option<Fault> {
        if index >= self.deposits_of(caller).len() {
            Some(Fault::DepositNotFound)
        } else if self.deposits_of(caller)[index].locked_at(now) {
            Some(Fault::LockPeriodNotExpired)
        } else {
            None
        }
    }

    /// The position among `caller`'s deposits of the first one under
    /// `subaccount`, or their number if there is none.
    pub open spec fn deposit_under(self, caller: Seq<u8>, subaccount: Seq<u8>) -> int {
        key_position(deposit_keys(self.deposits_of(caller)), subaccount)
    }

    /// The pool once the ledger paid out `caller`'s deposit under
    /// `subaccount`: the deposit is gone and `amount` leaves the running
    /// sum. If `caller` has no such deposit any more, nothing changes.
    pub open spec fn after_withdrawal(
        self,
        caller: Seq<u8>,
        subaccount: Seq<u8>,
        amount: u64,
    ) -> PoolModel {
        let at = self.deposit_under(caller, subaccount);
        if at < self.deposits_of(caller).len() {
            PoolModel {
                total_staked: floored_difference(self.total_staked, amount),
                ..self.with_deposits(caller, self.deposits_of(caller).remove(at))
            }
        } else {
            self
        }
    }
}

/// Removing one key from keys without duplicates leaves none.
pub proof fn lemma_remove_keeps_distinct(keys: Seq<Seq<u8>>, at: int)
    requires
        keys.no_duplicates(),
        0 <= at < keys.len(),
    ensures
        keys.remove(at).no_duplicates(),
        forall|key: Seq<u8>| keys.remove(at).contains(key) ==> keys.contains(key),
        !keys.remove(at).contains(keys[at]),
{
    let rest = keys.remove(at);
    assert forall|i: int, j: int| 0 <= i < rest.len() && 0 <= j < rest.len() && i != j implies rest[i]
        != rest[j] by {
        let from_i = if i < at { i } else { i + 1 };
        let from_j = if j < at { j } else { j + 1 };
        assert(rest[i] == keys[from_i]);
        assert(rest[j] == keys[from_j]);
    }
    assert forall|key: Seq<u8>| rest.contains(key) implies keys.contains(key) by {
        let i = choose|i: int| 0 <= i < rest.len() && rest[i] == key;
        let from_i = if i < at { i } else { i + 1 };
        assert(keys[from_i] == key);
    }
    if rest.contains(keys[at]) {
        let i = choose|i: int| 0 <= i < rest.len() && rest[i] == keys[at];
        let from_i = if i < at { i } else { i + 1 };
        assert(keys[from_i] == keys[at]);
    }
}

/// Deposits that are well formed stay so when pending keys go and the
/// counter grows.
pub proof fn lemma_accounts_wf_weaken(
    accounts: Seq<AccountModel>,
    keys: Seq<Seq<u8>>,
    next: u64,
    fewer_keys: Seq<Seq<u8>>,
    later: u64,
)
    requires
        accounts_wf(accounts, keys, next),
        next <= later,
        forall|key: Seq<u8>| fewer_keys.contains(key) ==> keys.contains(key),
    ensures
        accounts_wf(accounts, fewer_keys, later),
{
    assert forall|a: int| 0 <= a < accounts.len() implies deposits_wf(
        #[trigger] accounts[a].deposits,
        fewer_keys,
        later,
    ) by {
        assert(deposits_wf(accounts[a].deposits, keys, next));
    }
}

/// Deposits that are well formed stay so when the next subaccount is
/// issued and becomes a pending key.
pub proof fn lemma_accounts_wf_fresh_key(accounts: Seq<AccountModel>, keys: Seq<Seq<u8>>, next: u64)
    requires
        accounts_wf(accounts, keys, next),
        next < u64::MAX,
    ensures
        accounts_wf(accounts, keys.push(subaccount_bytes(next)), (next + 1) as u64),
{
    let fresh = subaccount_bytes(next);
    let more = keys.push(fresh);
    assert forall|a: int| 0 <= a < accounts.len() implies deposits_wf(
        #[trigger] accounts[a].deposits,
        more,
        (next + 1) as u64,
    ) by {
        let deposits = accounts[a].deposits;
        assert(deposits_wf(deposits, keys, next));
        assert forall|j: int| 0 <= j < deposits.len() implies issued_before(
            #[trigger] deposits[j].subaccount,
            (next + 1) as u64,
        ) && !more.contains(deposits[j].subaccount) by {
            assert(issued_before(deposits[j].subaccount, next));
            lemma_issued_is_not_next(deposits[j].subaccount, next);
            if more.contains(deposits[j].subaccount) {
                let i = choose|i: int| 0 <= i < more.len() && more[i] == deposits[j].subaccount;
                if i < keys.len() {
                    assert(keys[i] == deposits[j].subaccount);
                }
            }
        }
    }
}

// The operations keep the pool well formed.
impl PoolModel {
    /// The pool before anything happened is well formed.
    pub proof fn lemma_empty_is_wf()
        ensures
            PoolModel::empty().wf(),
    {
    }

    /// Issuing a subaccount keeps the pool well formed.
    pub proof fn lemma_allocation_keeps_wf(self)
        requires
            self.wf(),
            self.next_subaccount_id < u64::MAX,
        ensures
            self.after_allocation().wf(),
    {
        let after = self.after_allocation();
        assert(after.owners() =~= self.owners());
        assert(after.pending_keys() =~= self.pending_keys());
        lemma_accounts_wf_weaken(
            self.accounts,
            self.pending_keys(),
            self.next_subaccount_id,
            after.pending_keys(),
            after.next_subaccount_id,
        );
    }

    /// Asking for the reward subaccount keeps the pool well formed.
    pub proof fn lemma_reward_lookup_keeps_wf(self)
        requires
            self.wf(),
            self.reward_subaccount is None ==> self.next_subaccount_id < u64::MAX,
        ensures
            self.after_reward_lookup().wf(),
    {
        if self.reward_subaccount is None {
            let after = self.after_reward_lookup();
            self.lemma_allocation_keeps_wf();
            assert(after.owners() =~= self.after_allocation().owners());
            assert(after.pending_keys() =~= self.after_allocation().pending_keys());
            lemma_subaccount_number(self.next_subaccount_id);
        }
    }

    /// Announcing a deposit keeps the pool well formed, and the new
    /// intention is found under its subaccount.
    pub proof fn lemma_intention_keeps_wf(
        self,
        caller: Seq<u8>,
        amount: u64,
        lock_period: u64,
        now: u64,
    )
        requires
            self.wf(),
            amount != 0 ==> self.next_subaccount_id < u64::MAX,
        ensures
            self.after_intention(caller, amount, lock_period, now).wf(),
            amount != 0 ==> self.after_intention(caller, amount, lock_period, now).intention_of(
                self.next_subaccount(),
            ) == self.pending.len(),
    {
        if amount != 0 {
            let after = self.after_intention(caller, amount, lock_period, now);
            let fresh = self.next_subaccount();
            lemma_subaccount_number(self.next_subaccount_id);
            assert(after.owners() =~= self.owners());
            assert(after.pending_keys() =~= self.pending_keys().push(fresh));
            assert forall|i: int| 0 <= i < self.pending.len() implies self.pending_keys()[i]
                != fresh by {
                lemma_issued_is_not_next(self.pending[i].subaccount, self.next_subaccount_id);
            }
            assert forall|i: int| 0 <= i < after.pending.len() implies issued_before(
                #[trigger] after.pending[i].subaccount,
                after.next_subaccount_id,
            ) by {
                if i < self.pending.len() {
                    assert(after.pending[i] == self.pending[i]);
                    assert(issued_before(self.pending[i].subaccount, self.next_subaccount_id));
                }
            }
            lemma_accounts_wf_fresh_key(self.accounts, self.pending_keys(), self.next_subaccount_id);
            lemma_first_from_is(after.pending_keys(), fresh, 0, self.pending.len() as int);
        }
    }

    /// Replacing one identity's deposits by well-formed ones keeps the
    /// accounts well formed, and touches no other identity's deposits.
    pub proof fn lemma_with_deposits(
        self,
        owner: Seq<u8>,
        deposits: Seq<DepositModel>,
        pending_keys: Seq<Seq<u8>>,
        next: u64,
    )
        requires
            self.owners().no_duplicates(),
            accounts_wf(self.accounts, pending_keys, next),
            deposits_wf(deposits, pending_keys, next),
        ensures
            self.with_deposits(owner, deposits).owners().no_duplicates(),
            accounts_wf(self.with_deposits(owner, deposits).accounts, pending_keys, next),
            self.with_deposits(owner, deposits).account_of(owner) == self.account_of(owner),
            self.with_deposits(owner, deposits).deposits_of(owner) == deposits,
            self.with_deposits(owner, deposits).accounts.len() >= self.accounts.len(),
            forall|other: Seq<u8>|
                other != owner ==> #[trigger] self.with_deposits(owner, deposits).deposits_of(other)
                    == self.deposits_of(other),
    {
        let after = self.with_deposits(owner, deposits);
        let at = self.account_of(owner);
        lemma_key_position(self.owners(), owner);
        if at < self.accounts.len() {
            assert(after.owners() =~= self.owners());
        } else {
            assert(after.owners() =~= self.owners().push(owner));
            lemma_first_from_is(after.owners(), owner, 0, at);
        }
        assert forall|a: int| 0 <= a < after.accounts.len() implies deposits_wf(
            #[trigger] after.accounts[a].deposits,
            pending_keys,
            next,
        ) by {
            if a != at {
                assert(after.accounts[a] == self.accounts[a]);
                assert(deposits_wf(self.accounts[a].deposits, pending_keys, next));
            }
        }
        assert forall|other: Seq<u8>| other != owner implies #[trigger] after.deposits_of(other)
            == self.deposits_of(other) by {
            let there = self.account_of(other);
            lemma_key_position(self.owners(), other);
            if there < self.accounts.len() {
                lemma_first_from_is(after.owners(), other, 0, there);
            } else {
                lemma_first_from_is(after.owners(), other, 0, after.owners().len() as int);
            }
        }
    }

    /// The deposits of any identity in a well-formed pool are well formed.
    pub proof fn lemma_deposits_of_wf(self, owner: Seq<u8>)
        requires
            self.wf(),
        ensures
            deposits_wf(self.deposits_of(owner), self.pending_keys(), self.next_subaccount_id),
    {
        let at = self.account_of(owner);
        lemma_key_position(self.owners(), owner);
        if at < self.accounts.len() {
            assert(deposits_wf(
                self.accounts[at].deposits,
                self.pending_keys(),
                self.next_subaccount_id,
            ));
        } else {
            assert(deposit_keys(Seq::<DepositModel>::empty()) =~= Seq::<Seq<u8>>::empty());
        }
    }
}

// Confirming keeps the pool well formed.
impl PoolModel {
    /// Removing an intention keeps the pool well formed.
    pub proof fn lemma_without_intention_keeps_wf(self, subaccount: Seq<u8>)
        requires
            self.wf(),
            self.intention_of(subaccount) < self.pending.len(),
        ensures
            self.without_intention(subaccount).wf(),
    {
        let at = self.intention_of(subaccount);
        let after = self.without_intention(subaccount);
        lemma_key_position(self.pending_keys(), subaccount);
        assert(after.owners() =~= self.owners());
        assert(after.pending_keys() =~= self.pending_keys().remove(at));
        lemma_remove_keeps_distinct(self.pending_keys(), at);
        assert forall|i: int| 0 <= i < after.pending.len() implies issued_before(
            #[trigger] after.pending[i].subaccount,
            after.next_subaccount_id,
        ) by {
            let from = if i < at { i } else { i + 1 };
            assert(after.pending[i] == self.pending[from]);
        }
        lemma_accounts_wf_weaken(
            self.accounts,
            self.pending_keys(),
            self.next_subaccount_id,
            after.pending_keys(),
            after.next_subaccount_id,
        );
    }

    /// Trying to confirm keeps the pool well formed.
    pub proof fn lemma_confirmation_check_keeps_wf(
        self,
        caller: Seq<u8>,
        subaccount: Seq<u8>,
        now: u64,
    )
        requires
            self.wf(),
        ensures
            self.after_confirmation_check(caller, subaccount, now).wf(),
    {
        if self.confirmation_fault(caller, subaccount, now) == Some(Fault::DepositExpired) {
            self.lemma_without_intention_keeps_wf(subaccount);
        }
    }

    /// Confirming keeps the pool well formed.
    pub proof fn lemma_confirmation_keeps_wf(
        self,
        caller: Seq<u8>,
        subaccount: Seq<u8>,
        now: u64,
        reply: Option<u64>,
    )
        requires
            self.wf(),
        ensures
            self.after_confirmation(caller, subaccount, now, reply).wf(),
    {
        match self.confirmation_outcome(caller, subaccount, now, reply) {
            Some(Fault::DepositExpired) => {
                self.lemma_without_intention_keeps_wf(subaccount);
            },
            Some(_) => {},
            None => {
                let at = self.intention_of(subaccount);
                let keys = self.pending_keys();
                let rest = keys.remove(at);
                let next = self.next_subaccount_id;
                let held = self.deposits_of(caller);
                let added = self.confirmed_deposit(subaccount, now, reply->0);
                let deposits = held.push(added);
                let after = self.after_confirmation(caller, subaccount, now, reply);
                lemma_key_position(keys, subaccount);
                assert(keys[at] == self.pending[at].subaccount);
                lemma_remove_keeps_distinct(keys, at);
                self.lemma_deposits_of_wf(caller);
                lemma_accounts_wf_weaken(self.accounts, keys, next, rest, next);
                assert(deposits_wf(deposits, rest, next)) by {
                    assert(deposit_keys(deposits) =~= deposit_keys(held).push(subaccount));
                    assert forall|j: int| 0 <= j < held.len() implies deposit_keys(held)[j]
                        != subaccount by {
                        assert(!keys.contains(held[j].subaccount));
                    }
                    assert forall|j: int| 0 <= j < deposits.len() implies issued_before(
                        #[trigger] deposits[j].subaccount,
                        next,
                    ) && !rest.contains(deposits[j].subaccount) by {
                        if j < held.len() {
                            assert(deposits[j] == held[j]);
                            assert(!keys.contains(held[j].subaccount));
                        }
                    }
                }
                self.lemma_with_deposits(caller, deposits, rest, next);
                assert(after.owners() =~= self.with_deposits(caller, deposits).owners());
                assert(after.accounts == self.with_deposits(caller, deposits).accounts);
                assert(after.pending_keys() =~= rest);
                assert forall|i: int| 0 <= i < after.pending.len() implies issued_before(
                    #[trigger] after.pending[i].subaccount,
                    after.next_subaccount_id,
                ) by {
                    let from = if i < at { i } else { i + 1 };
                    assert(after.pending[i] == self.pending[from]);
                }
            },
        }
    }
}

/// The intentions that are still live were all pending, keep their order
/// of subaccounts free of duplicates, and keep having been issued.
pub proof fn lemma_live_intentions(pending: Seq<IntentionModel>, now: u64, next: u64)
    requires
        Seq::new(pending.len(), |i: int| pending[i].subaccount).no_duplicates(),
        forall|i: int| 0 <= i < pending.len() ==> issued_before(#[trigger] pending[i].subaccount, next),
    ensures
        live_intentions(pending, now).len() <= pending.len(),
        forall|i: int|
            0 <= i < live_intentions(pending, now).len() ==> pending.contains(
                #[trigger] live_intentions(pending, now)[i],
            ),
        forall|i: int|
            0 <= i < live_intentions(pending, now).len() ==> !(#[trigger] live_intentions(
                pending,
                now,
            )[i]).expired_at(now),
        Seq::new(
            live_intentions(pending, now).len(),
            |i: int| live_intentions(pending, now)[i].subaccount,
        ).no_duplicates(),
        forall|i: int|
            0 <= i < live_intentions(pending, now).len() ==> issued_before(
                #[trigger] live_intentions(pending, now)[i].subaccount,
                next,
            ),
    decreases pending.len(),
{
    reveal(Seq::filter);
    let live = live_intentions(pending, now);
    if pending.len() > 0 {
        let front = pending.drop_last();
        let last = pending.last();
        let front_live = live_intentions(front, now);
        assert(Seq::new(front.len(), |i: int| front[i].subaccount).no_duplicates()) by {
            assert forall|i: int, j: int|
                0 <= i < front.len() && 0 <= j < front.len() && i != j implies front[i].subaccount
                != front[j].subaccount by {
                assert(Seq::new(pending.len(), |k: int| pending[k].subaccount)[i]
                    == pending[i].subaccount);
                assert(Seq::new(pending.len(), |k: int| pending[k].subaccount)[j]
                    == pending[j].subaccount);
            }
        }
        assert forall|i: int| 0 <= i < front.len() implies issued_before(
            #[trigger] front[i].subaccount,
            next,
        ) by {
            assert(front[i] == pending[i]);
        }
        lemma_live_intentions(front, now, next);
        assert forall|i: int| 0 <= i < front_live.len() implies pending.contains(
            #[trigger] front_live[i],
        ) && front_live[i].subaccount != last.subaccount by {
            assert(front.contains(front_live[i]));
            let j = choose|j: int| 0 <= j < front.len() && front[j] == front_live[i];
            assert(pending[j] == front_live[i]);
            assert(Seq::new(pending.len(), |k: int| pending[k].subaccount)[j]
                == pending[j].subaccount);
            assert(Seq::new(pending.len(), |k: int| pending[k].subaccount)[pending.len() - 1]
                == last.subaccount);
        }
        let keys = Seq::new(live.len(), |i: int| live[i].subaccount);
        let front_keys = Seq::new(front_live.len(), |i: int| front_live[i].subaccount);
        if !last.expired_at(now) {
            assert(live == front_live.push(last));
            assert(pending[pending.len() - 1] == last);
            assert forall|i: int, j: int|
                0 <= i < keys.len() && 0 <= j < keys.len() && i != j implies keys[i]
                != keys[j] by {
                if i < front_live.len() && j < front_live.len() {
                    assert(keys[i] == front_keys[i]);
                    assert(keys[j] == front_keys[j]);
                } else if i < front_live.len() {
                    assert(front_live[i].subaccount != last.subaccount);
                } else {
                    assert(front_live[j].subaccount != last.subaccount);
                }
            }
        } else {
            assert(live == front_live);
            assert(keys =~= front_keys);
        }
    }
}

// Forgetting and withdrawing keep the pool well formed.
impl PoolModel {
    /// Removing the expired intentions keeps the pool well formed.
    pub proof fn lemma_cleanup_keeps_wf(self, now: u64)
        requires
            self.wf(),
        ensures
            self.after_cleanup(now).wf(),
            0 <= self.expired_count(now) <= self.pending.len(),
    {
        let after = self.after_cleanup(now);
        let live = live_intentions(self.pending, now);
        assert(self.pending_keys() =~= Seq::new(
            self.pending.len(),
            |i: int| self.pending[i].subaccount,
        ));
        lemma_live_intentions(self.pending, now, self.next_subaccount_id);
        assert(after.owners() =~= self.owners());
        assert(after.pending_keys() =~= Seq::new(live.len(), |i: int| live[i].subaccount));
        assert forall|key: Seq<u8>| after.pending_keys().contains(key) implies self.pending_keys().contains(
            key,
        ) by {
            let i = choose|i: int| 0 <= i < after.pending_keys().len() && after.pending_keys()[i] == key;
            assert(self.pending.contains(live[i]));
            let j = choose|j: int| 0 <= j < self.pending.len() && self.pending[j] == live[i];
            assert(self.pending_keys()[j] == key);
        }
        lemma_accounts_wf_weaken(
            self.accounts,
            self.pending_keys(),
            self.next_subaccount_id,
            after.pending_keys(),
            after.next_subaccount_id,
        );
    }

    /// Withdrawing keeps the pool well formed.
    pub proof fn lemma_withdrawal_keeps_wf(self, caller: Seq<u8>, subaccount: Seq<u8>, amount: u64)
        requires
            self.wf(),
        ensures
            self.after_withdrawal(caller, subaccount, amount).wf(),
    {
        let at = self.deposit_under(caller, subaccount);
        let held = self.deposits_of(caller);
        lemma_key_position(deposit_keys(held), subaccount);
        if at < held.len() {
            let rest = held.remove(at);
            let after = self.after_withdrawal(caller, subaccount, amount);
            self.lemma_deposits_of_wf(caller);
            assert(deposits_wf(rest, self.pending_keys(), self.next_subaccount_id)) by {
                assert(deposit_keys(rest) =~= deposit_keys(held).remove(at));
                lemma_remove_keeps_distinct(deposit_keys(held), at);
                assert forall|j: int| 0 <= j < rest.len() implies issued_before(
                    #[trigger] rest[j].subaccount,
                    self.next_subaccount_id,
                ) && !self.pending_keys().contains(rest[j].subaccount) by {
                    let from = if j < at { j } else { j + 1 };
                    assert(rest[j] == held[from]);
                }
            }
            self.lemma_with_deposits(caller, rest, self.pending_keys(), self.next_subaccount_id);
            assert(after.owners() =~= self.with_deposits(caller, rest).owners());
            assert(after.pending_keys() =~= self.pending_keys());
        }
    }
}

} // verus!
