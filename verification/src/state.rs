//! The ledger as a mathematical value, and what each operation makes of it.
//!
//! `StakingState` is the model that the contracts of the executable ledger
//! speak of. Every operation is a function from one state to the next; the
//! lemmas of this module show that each of them keeps the state valid.

use vstd::prelude::*;
use crate::balances::{credited, debited, BalanceMap};
use crate::percent::{percent_of, Percent};
use crate::pools::{no_pools, PoolMap};
use crate::primitives::{max_balance, AccountId, Balance, BlockNumber, CurrencyId, Error, StakeId};
use crate::records::{
    due_len, has_record, is_of, is_pending, lemma_due_len, lemma_sum_push, lemma_sum_remove, one_if_of,
    queue_sorted, record_index, stakes_held, staked_total, weight_in, Event, Params, StakeRecord,
    UnstakeQueueEntry,
};
use crate::tiers::{durations_distinct, lemma_standard_tiers_distinct, rate_in, standard_tiers, DurationTier};

verus! {

/// The whole of a staking ledger.
#[verifier::ext_equal]
pub struct StakingState {
    /// The durations on offer.
    pub tiers: Seq<DurationTier>,
    pub params: Params,
    /// The active stakes, oldest first.
    pub records: Seq<StakeRecord>,
    /// What is locked in each currency.
    pub pools: PoolMap,
    /// The pending early withdrawals, in the order in which they unlock.
    pub queue: Seq<UnstakeQueueEntry>,
    /// What was reported and not yet collected.
    pub events: Seq<Event>,
    /// The number that the next stake's name will bear.
    pub next_nonce: nat,
}

/// A record is sound: its principal covers what was locked, and its name
/// says what the record says and bears a number that was handed out.
pub open spec fn record_valid(r: StakeRecord, next_nonce: nat) -> bool {
    &&& r.principal >= r.initial_balance
    &&& r.unique_id.account == r.account
    &&& r.unique_id.currency == r.currency
    &&& r.unique_id.block == r.start_block
    &&& r.unique_id.nonce < next_nonce
}

/// The block at which a stake has run its duration.
pub open spec fn maturity(r: StakeRecord) -> nat {
    (r.start_block + r.duration) as nat
}

impl StakingState {
    /// A ledger in which nothing was staked yet.
    pub open spec fn initial(tiers: Seq<DurationTier>, params: Params) -> StakingState {
        StakingState {
            tiers,
            params,
            records: Seq::empty(),
            pools: no_pools(),
            queue: Seq::empty(),
            events: Seq::empty(),
            next_nonce: 0,
        }
    }

    /// The stakes are sound: every record is, no two bear the same number,
    /// no account holds more stakes than one account may, and the pool of
    /// every currency is the sum of what its stakes locked.
    pub open spec fn stakes_sound(self) -> bool {
        &&& durations_distinct(self.tiers)
        &&& forall|k: int| 0 <= k < self.records.len() ==> record_valid(#[trigger] self.records[k], self.next_nonce)
        &&& forall|i: int, j: int|
            0 <= i < j < self.records.len() ==> (#[trigger] self.records[i]).unique_id.nonce != (
            #[trigger] self.records[j]).unique_id.nonce
        &&& forall|account: AccountId| #[trigger]
            stakes_held(self.records, account) <= self.params.max_stakes_per_account
        &&& forall|currency: CurrencyId| #[trigger] self.pools.dom().contains(currency)
        &&& forall|currency: CurrencyId| #[trigger] self.pools[currency] == staked_total(self.records, currency)
    }

    /// The queue is sound: it is in the order of the unlock blocks and within
    /// its capacity, every entry is for an active stake of the account it
    /// names, and no stake has two entries.
    pub open spec fn queue_sound(self) -> bool {
        &&& queue_sorted(self.queue)
        &&& self.queue.len() <= self.params.queue_capacity
        &&& forall|k: int|
            0 <= k < self.queue.len() ==> has_record(self.records, (#[trigger] self.queue[k]).unique_id)
                && self.queue[k].account == self.queue[k].unique_id.account
        &&& forall|i: int, j: int|
            0 <= i < j < self.queue.len() ==> (#[trigger] self.queue[i]).unique_id != (
            #[trigger] self.queue[j]).unique_id
    }

    /// The invariant of the ledger.
    pub open spec fn valid(self) -> bool {
        self.stakes_sound() && self.queue_sound()
    }

    /// In a valid ledger a name belongs to one record only.
    pub proof fn lemma_index_unique(self, id: StakeId, k: int)
        requires
            self.stakes_sound(),
            0 <= k < self.records.len(),
            self.records[k].unique_id == id,
        ensures
            has_record(self.records, id),
            record_index(self.records, id) == k,
    {
        let at = record_index(self.records, id);
        if at < k {
            assert(self.records[at].unique_id.nonce != self.records[k].unique_id.nonce);
        } else if k < at {
            assert(self.records[k].unique_id.nonce != self.records[at].unique_id.nonce);
        }
    }

    /// What is locked in `currency`.
    pub open spec fn pool_of(self, currency: CurrencyId) -> nat {
        self.pools[currency]
    }

    /// The active stakes of `account`, oldest first.
    pub open spec fn stakes_of(self, account: AccountId) -> Seq<StakeRecord> {
        self.records.filter(is_of(account))
    }

    /// The report of the end of the stake `r`.
    pub open spec fn end_of(r: StakeRecord) -> Event {
        Event::Unstaked {
            account: r.account,
            unique_id: r.unique_id,
            currency: r.currency,
            initial_balance: r.initial_balance,
            principal: r.principal,
        }
    }

    /// The ledger after it was moved to version 1: every stake has ended
    /// and is reported, the queue is empty, the standard tiers are on offer
    /// and an early withdrawal costs one percent. The other settings stay,
    /// and so does the number that the next name will bear.
    pub open spec fn migrated_to_v1(self) -> StakingState {
        StakingState {
            tiers: standard_tiers(),
            params: Params { unstake_fee: Percent::of_parts(1), ..self.params },
            records: Seq::empty(),
            pools: no_pools(),
            queue: Seq::empty(),
            events: self.events + self.records.map_values(|r: StakeRecord| Self::end_of(r)),
            next_nonce: self.next_nonce,
        }
    }

    /// A ledger that was moved to version 1 is valid.
    pub proof fn lemma_migrated_valid(self)
        ensures
            self.migrated_to_v1().valid(),
    {
        lemma_standard_tiers_distinct();
        let next = self.migrated_to_v1();
        assert forall|account: AccountId| #[trigger] stakes_held(next.records, account) == 0 by {
        }
    }

    // ----- stake -----

    /// Why a stake cannot be made, if it cannot. The reasons are tried in
    /// this order.
    pub open spec fn stake_refusal(
        self,
        balances: BalanceMap,
        account: AccountId,
        currency: CurrencyId,
        amount: Balance,
        duration: BlockNumber,
    ) -> Option<Error> {
        if rate_in(self.tiers, duration).is_none() {
            Some(Error::InvalidDuration)
        } else if amount < self.params.min_stake {
            Some(Error::AmountTooSmall)
        } else if balances[(account, currency)] < amount {
            Some(Error::InsufficientFunds)
        } else if stakes_held(self.records, account) >= self.params.max_stakes_per_account {
            Some(Error::TooManyStakes)
        } else if self.pools[currency] + amount > max_balance() || self.next_nonce >= u64::MAX {
            Some(Error::ArithmeticOverflow)
        } else {
            None
        }
    }

    /// The record of a stake made now.
    pub open spec fn new_record(
        self,
        now: BlockNumber,
        account: AccountId,
        currency: CurrencyId,
        amount: Balance,
        duration: BlockNumber,
    ) -> StakeRecord {
        StakeRecord {
            unique_id: StakeId { account, currency, block: now, nonce: self.next_nonce as u64 },
            account,
            currency,
            initial_balance: amount,
            principal: amount,
            duration,
            reward_rate: rate_in(self.tiers, duration).unwrap(),
            start_block: now,
        }
    }

    /// The ledger after a stake was made.
    pub open spec fn staked(
        self,
        now: BlockNumber,
        account: AccountId,
        currency: CurrencyId,
        amount: Balance,
        duration: BlockNumber,
    ) -> StakingState {
        let r = self.new_record(now, account, currency, amount, duration);
        StakingState {
            records: self.records.push(r),
            pools: self.pools.insert(currency, (self.pools[currency] + amount) as nat),
            events: self.events.push(
                Event::Staked { account, unique_id: r.unique_id, currency, amount, duration },
            ),
            next_nonce: self.next_nonce + 1,
            ..self
        }
    }

    /// A stake that is not refused leaves a valid ledger.
    pub proof fn lemma_staked_valid(
        self,
        balances: BalanceMap,
        now: BlockNumber,
        account: AccountId,
        currency: CurrencyId,
        amount: Balance,
        duration: BlockNumber,
    )
        requires
            self.valid(),
            self.stake_refusal(balances, account, currency, amount, duration).is_none(),
        ensures
            self.staked(now, account, currency, amount, duration).valid(),
    {
        let r = self.new_record(now, account, currency, amount, duration);
        let next = self.staked(now, account, currency, amount, duration);
        assert forall|k: int| 0 <= k < next.records.len() implies record_valid(
            #[trigger] next.records[k],
            next.next_nonce,
        ) by {
            if k < self.records.len() {
                assert(record_valid(self.records[k], self.next_nonce));
            }
        }
        assert forall|i: int, j: int| 0 <= i < j < next.records.len() implies (
        #[trigger] next.records[i]).unique_id.nonce != (#[trigger] next.records[j]).unique_id.nonce by {
            assert(record_valid(self.records[i], self.next_nonce));
            if j < self.records.len() {
                assert(self.records[i].unique_id.nonce != self.records[j].unique_id.nonce);
            }
        }
        assert forall|a: AccountId| #[trigger] stakes_held(next.records, a) <= next.params.max_stakes_per_account by {
            lemma_sum_push(self.records, r, one_if_of(a));
            assert(stakes_held(self.records, a) <= self.params.max_stakes_per_account);
        }
        assert forall|c: CurrencyId| #[trigger] next.pools[c] == staked_total(next.records, c) by {
            lemma_sum_push(self.records, r, weight_in(c));
            assert(self.pools[c] == staked_total(self.records, c));
        }
        assert forall|k: int| 0 <= k < next.queue.len() implies has_record(
            next.records,
            (#[trigger] next.queue[k]).unique_id,
        ) && next.queue[k].account == next.queue[k].unique_id.account by {
            let id = self.queue[k].unique_id;
            assert(has_record(self.records, id));
            let at = record_index(self.records, id);
            assert(next.records[at].unique_id == id);
        }
    }

    // ----- unstake -----

    /// The record that bears the name `id`.
    pub open spec fn record_of(self, id: StakeId) -> StakeRecord {
        self.records[record_index(self.records, id)]
    }

    /// `account` has an active stake `id` for which no withdrawal is
    /// pending.
    pub open spec fn withdrawable(self, account: AccountId, id: StakeId) -> bool {
        &&& has_record(self.records, id)
        &&& self.record_of(id).account == account
        &&& !is_pending(self.queue, id)
    }

    /// What an early withdrawal of `r` costs.
    pub open spec fn early_fee(self, r: StakeRecord) -> nat {
        percent_of(self.params.unstake_fee.parts(), r.initial_balance as nat)
    }

    /// Why a stake cannot be withdrawn, if it cannot. The reasons are tried
    /// in this order.
    pub open spec fn unstake_refusal(
        self,
        balances: BalanceMap,
        now: BlockNumber,
        account: AccountId,
        id: StakeId,
        allow_early_with_deferral: bool,
    ) -> Option<Error> {
        if !self.withdrawable(account, id) {
            Some(Error::StakeNotFound)
        } else {
            let r = self.record_of(id);
            if now >= maturity(r) {
                if balances[(account, r.currency)] + r.principal > max_balance() {
                    Some(Error::ArithmeticOverflow)
                } else {
                    None
                }
            } else if !allow_early_with_deferral {
                Some(Error::StakeNotMatured)
            } else if now + self.params.forced_unlock_delay > u32::MAX {
                Some(Error::ArithmeticOverflow)
            } else if self.queue.len() >= self.params.queue_capacity {
                Some(Error::QueueFull)
            } else if balances[(account, r.currency)] < self.early_fee(r) {
                Some(Error::InsufficientFunds)
            } else {
                None
            }
        }
    }

    /// The ledger after the stake at place `k` was paid out: the record is
    /// gone and its initial balance has left the pool.
    pub open spec fn released(self, k: int) -> StakingState {
        let r = self.records[k];
        StakingState {
            records: self.records.remove(k),
            pools: self.pools.insert(r.currency, (self.pools[r.currency] - r.initial_balance) as nat),
            events: self.events.push(
                Event::Unstaked {
                    account: r.account,
                    unique_id: r.unique_id,
                    currency: r.currency,
                    initial_balance: r.initial_balance,
                    principal: r.principal,
                },
            ),
            ..self
        }
    }

    /// The entry that an early withdrawal of `r`, asked for at `now`, puts
    /// into the queue.
    pub open spec fn entry_for(self, now: BlockNumber, r: StakeRecord) -> UnstakeQueueEntry {
        UnstakeQueueEntry {
            unique_id: r.unique_id,
            account: r.account,
            unlock_block: (now + self.params.forced_unlock_delay) as u32,
            fee_charged: self.early_fee(r) as u128,
        }
    }

    /// The ledger after an early withdrawal of the stake at place `k` was
    /// asked for at `now`. The entry goes behind every entry that unlocks at
    /// the same block or before; the record stays.
    pub open spec fn deferred(self, now: BlockNumber, k: int) -> StakingState {
        let entry = self.entry_for(now, self.records[k]);
        StakingState {
            queue: self.queue.insert(due_len(self.queue, entry.unlock_block) as int, entry),
            events: self.events.push(
                Event::UnstakeQueued {
                    account: entry.account,
                    unique_id: entry.unique_id,
                    fee: entry.fee_charged,
                    unlock_block: entry.unlock_block,
                },
            ),
            ..self
        }
    }

    /// The ledger after the stake `id` was withdrawn at `now`: paid out if
    /// it has matured, queued if it has not.
    pub open spec fn unstaked(self, now: BlockNumber, id: StakeId) -> StakingState {
        let k = record_index(self.records, id);
        if now >= maturity(self.records[k]) {
            self.released(k)
        } else {
            self.deferred(now, k)
        }
    }

    /// The balances after the stake `id` was withdrawn at `now`: the account
    /// has received the principal if the stake has matured, and has paid the
    /// fee if it has not.
    pub open spec fn unstake_settled(self, balances: BalanceMap, now: BlockNumber, id: StakeId) -> BalanceMap {
        let r = self.record_of(id);
        if now >= maturity(r) {
            credited(balances, r.account, r.currency, r.principal as nat)
        } else {
            debited(balances, r.account, r.currency, self.early_fee(r))
        }
    }

    /// Removing a record keeps the stakes sound, and every other name keeps
    /// its record.
    pub proof fn lemma_released_stakes_sound(self, k: int)
        requires
            self.stakes_sound(),
            0 <= k < self.records.len(),
        ensures
            self.released(k).stakes_sound(),
            forall|id: StakeId|
                has_record(self.records, id) && id != self.records[k].unique_id ==> #[trigger] has_record(
                    self.released(k).records,
                    id,
                ),
    {
        let r = self.records[k];
        let next = self.released(k);
        assert forall|i: int| 0 <= i < next.records.len() implies record_valid(
            #[trigger] next.records[i],
            next.next_nonce,
        ) by {
            if i < k {
                assert(record_valid(self.records[i], self.next_nonce));
            } else {
                assert(record_valid(self.records[i + 1], self.next_nonce));
            }
        }
        assert forall|i: int, j: int| 0 <= i < j < next.records.len() implies (
        #[trigger] next.records[i]).unique_id.nonce != (#[trigger] next.records[j]).unique_id.nonce by {
            let i0 = if i < k { i } else { i + 1 };
            let j0 = if j < k { j } else { j + 1 };
            assert(self.records[i0].unique_id.nonce != self.records[j0].unique_id.nonce);
        }
        assert forall|a: AccountId| #[trigger] stakes_held(next.records, a) <= next.params.max_stakes_per_account by {
            lemma_sum_remove(self.records, k, one_if_of(a));
            assert(stakes_held(self.records, a) <= self.params.max_stakes_per_account);
        }
        assert forall|c: CurrencyId| #[trigger] next.pools[c] == staked_total(next.records, c) by {
            lemma_sum_remove(self.records, k, weight_in(c));
            assert(self.pools[c] == staked_total(self.records, c));
        }
        assert forall|id: StakeId| has_record(self.records, id) && id != r.unique_id implies #[trigger] has_record(
            next.records,
            id,
        ) by {
            let at = record_index(self.records, id);
            let to = if at < k { at } else { at - 1 };
            assert(next.records[to].unique_id == id);
        }
    }

    /// Paying out a stake for which nothing is pending leaves a valid
    /// ledger.
    pub proof fn lemma_released_valid(self, k: int)
        requires
            self.valid(),
            0 <= k < self.records.len(),
            !is_pending(self.queue, self.records[k].unique_id),
        ensures
            self.released(k).valid(),
    {
        self.lemma_released_stakes_sound(k);
    }

    /// Asking for an early withdrawal of a stake for which none is pending
    /// leaves a valid ledger, if the queue has room and the unlock block can
    /// be told.
    pub proof fn lemma_deferred_valid(self, now: BlockNumber, k: int)
        requires
            self.valid(),
            0 <= k < self.records.len(),
            !is_pending(self.queue, self.records[k].unique_id),
            self.queue.len() < self.params.queue_capacity,
            now + self.params.forced_unlock_delay <= u32::MAX,
        ensures
            self.deferred(now, k).valid(),
    {
        let entry = self.entry_for(now, self.records[k]);
        let at = due_len(self.queue, entry.unlock_block) as int;
        let next = self.deferred(now, k);
        lemma_due_len(self.queue, entry.unlock_block);
        assert(record_valid(self.records[k], self.next_nonce));
        assert forall|i: int, j: int| 0 <= i < j < next.queue.len() implies (#[trigger] next.queue[i]).unlock_block
            <= (#[trigger] next.queue[j]).unlock_block && next.queue[i].unique_id != next.queue[j].unique_id by {
            let i0 = if i < at { i } else { i - 1 };
            let j0 = if j < at { j } else { j - 1 };
            if i != at && j != at {
                assert(self.queue[i0].unlock_block <= self.queue[j0].unlock_block);
                assert(self.queue[i0].unique_id != self.queue[j0].unique_id);
            } else if i == at {
                assert(self.queue[at].unlock_block <= self.queue[j0].unlock_block || at == j0);
                assert(self.queue[j0].unique_id != entry.unique_id);
            } else {
                assert(self.queue[i0].unlock_block <= entry.unlock_block);
                assert(self.queue[i0].unique_id != entry.unique_id);
            }
        }
        assert forall|i: int| 0 <= i < next.queue.len() implies has_record(
            next.records,
            (#[trigger] next.queue[i]).unique_id,
        ) && next.queue[i].account == next.queue[i].unique_id.account by {
            if i < at {
                assert(next.queue[i] == self.queue[i]);
            } else if i > at {
                assert(next.queue[i] == self.queue[i - 1]);
            } else {
                assert(next.queue[i] == entry);
            }
        }
    }
}

} // verus!
