//! The ledger itself: the operations that callers reach, each with a
//! contract over [`StakingState`].

use vstd::prelude::*;
use crate::balances::{debited, Balances};
use crate::percent::Percent;
use crate::pools::PoolTotals;
use crate::primitives::{max_balance, AccountId, Balance, BlockNumber, CurrencyId, Error, StakeId, Weight};
use crate::records::{
    copy_of, due_len, has_record, is_of, is_pending, lemma_due_len_is, lemma_sum_covers, lemma_sum_prefix,
    lemma_sum_push, lemma_zero_sum, one_if_of, stakes_held, staked_total, sum_by, weight_in, Event, Params,
    StakeRecord, UnstakeQueueEntry,
};
use crate::rewards::{reward_of, reward_skipped, rewarded, skipped_rewards};
use crate::share::proportional_share;
use crate::state::StakingState;
use crate::tiers::{rate_in, DurationTier, TierTable};
use crate::weights::{db_reads, db_reads_writes, sat_add, sat_mul};
use crate::world::{locked_in, Call, World};

verus! {

/// A staking ledger.
pub struct Staking {
    tiers: TierTable,
    params: Params,
    records: Vec<StakeRecord>,
    pools: PoolTotals,
    queue: Vec<UnstakeQueueEntry>,
    events: Vec<Event>,
    next_nonce: u64,
}

impl View for Staking {
    type V = StakingState;

    closed spec fn view(&self) -> StakingState {
        StakingState {
            tiers: self.tiers@,
            params: self.params,
            records: self.records@,
            pools: self.pools@,
            queue: self.queue@,
            events: self.events@,
            next_nonce: self.next_nonce as nat,
        }
    }
}

impl Staking {
    /// The parts of the ledger are each in order.
    pub closed spec fn parts_wf(&self) -> bool {
        self.tiers.wf() && self.pools.wf()
    }

    /// The ledger is in order: its parts are, and its state is valid.
    pub open spec fn wf(&self) -> bool {
        self.parts_wf() && self@.valid()
    }

    /// The ledger together with the balances around it.
    pub open spec fn with(&self, ledger: &Balances) -> World {
        World { state: self@, balances: ledger@ }
    }

    /// A ledger with the given tiers and settings, in which nothing was
    /// staked yet.
    pub fn new(tiers: TierTable, params: Params) -> (ledger: Staking)
        requires
            tiers.wf(),
        ensures
            ledger.wf(),
            ledger@ == StakingState::initial(tiers@, params),
    {
        let ledger = Staking {
            tiers,
            params,
            records: Vec::new(),
            pools: PoolTotals::new(),
            queue: Vec::new(),
            events: Vec::new(),
            next_nonce: 0,
        };
        proof {
            assert(ledger@ =~= StakingState::initial(tiers@, params));
            assert forall|account: AccountId| #[trigger] stakes_held(ledger@.records, account) == 0 by {
            }
        }
        ledger
    }

    /// Replaces the tiers on offer. Stakes that exist keep the rate that
    /// they were made with.
    pub fn set_tiers(&mut self, tiers: TierTable)
        requires
            old(self).wf(),
            tiers.wf(),
        ensures
            final(self).wf(),
            final(self)@ == (StakingState { tiers: tiers@, ..old(self)@ }),
            forall|ledger: &Balances|
                #![trigger old(self).with(ledger)]
                final(self).with(ledger) == old(self).with(ledger).after(Call::SetTiers { tiers: tiers@ }),
    {
        self.tiers = tiers;
    }

    /// The rate configured for exactly `duration`, or nothing if no tier
    /// offers it.
    pub fn rate_for(&self, duration: BlockNumber) -> (rate: Option<Percent>)
        requires
            self.wf(),
        ensures
            rate == rate_in(self@.tiers, duration),
    {
        self.tiers.rate_for(duration)
    }

    /// The tiers on offer.
    pub fn tier_table(&self) -> (tiers: Vec<DurationTier>)
        ensures
            tiers@ == self@.tiers,
    {
        self.tiers.to_vec()
    }

    /// The settings that the ledger was made with.
    pub fn params(&self) -> (params: Params)
        ensures
            params == self@.params,
    {
        self.params
    }

    /// The share of the initial balance that an early withdrawal costs.
    pub fn unstake_fee(&self) -> (fee: Percent)
        ensures
            fee == self@.params.unstake_fee,
    {
        self.params.unstake_fee
    }

    /// What is locked in `currency`: the sum of the initial balances of its
    /// active stakes.
    pub fn pool_of(&self, currency: CurrencyId) -> (total: Balance)
        requires
            self.wf(),
        ensures
            total == self@.pool_of(currency),
            total == staked_total(self@.records, currency),
    {
        assert(self@.pools[currency] == staked_total(self@.records, currency));
        self.pools.total_of(currency)
    }

    /// The number of pending early withdrawals.
    pub fn queue_length(&self) -> (n: usize)
        ensures
            n == self@.queue.len(),
    {
        self.queue.len()
    }

    /// The pending early withdrawals, in the order in which they unlock.
    pub fn unstake_queue(&self) -> (queue: Vec<UnstakeQueueEntry>)
        ensures
            queue@ == self@.queue,
    {
        copy_of(&self.queue)
    }

    /// The active stakes of `account`, oldest first.
    pub fn stakes_of(&self, account: AccountId) -> (stakes: Vec<StakeRecord>)
        ensures
            stakes@ == self@.stakes_of(account),
    {
        let mut out: Vec<StakeRecord> = Vec::new();
        let mut i: usize = 0;
        assert(self.records@.take(0) =~= Seq::<StakeRecord>::empty());
        assert(Seq::<StakeRecord>::empty().filter(is_of(account)) =~= Seq::<StakeRecord>::empty()) by {
            reveal(Seq::filter);
        }
        while i < self.records.len()
            invariant
                i <= self.records.len(),
                out@ == self.records@.take(i as int).filter(is_of(account)),
            decreases self.records.len() - i,
        {
            proof {
                assert(self.records@.take(i + 1) =~= self.records@.take(i as int).push(self.records[i as int]));
                self.records@.take(i as int).lemma_filter_push(self.records[i as int], is_of(account));
            }
            if self.records[i].account == account {
                out.push(self.records[i]);
            }
            i += 1;
        }
        assert(self.records@.take(self.records.len() as int) =~= self.records@);
        out
    }

    /// What was reported since the reports were last collected.
    pub fn events(&self) -> (events: Vec<Event>)
        ensures
            events@ == self@.events,
    {
        copy_of(&self.events)
    }

    /// Collects the reports: hands them out and forgets them.
    pub fn take_events(&mut self) -> (events: Vec<Event>)
        requires
            old(self).wf(),
        ensures
            final(self).wf(),
            events@ == old(self)@.events,
            final(self)@ == (StakingState { events: Seq::empty(), ..old(self)@ }),
            forall|ledger: &Balances|
                #![trigger old(self).with(ledger)]
                final(self).with(ledger) == old(self).with(ledger).after(Call::TakeEvents),
    {
        let mut out: Vec<Event> = Vec::new();
        core::mem::swap(&mut self.events, &mut out);
        out
    }

    /// The number of active stakes of `account`.
    fn count_stakes(&self, account: AccountId) -> (n: usize)
        ensures
            n == stakes_held(self@.records, account),
    {
        let mut n: usize = 0;
        let mut i: usize = 0;
        while i < self.records.len()
            invariant
                i <= self.records.len(),
                n <= i,
                n == stakes_held(self.records@.take(i as int), account),
            decreases self.records.len() - i,
        {
            proof {
                assert(self.records@.take(i + 1) =~= self.records@.take(i as int).push(self.records[i as int]));
                lemma_sum_push(self.records@.take(i as int), self.records[i as int], one_if_of(account));
            }
            if self.records[i].account == account {
                n += 1;
            }
            i += 1;
        }
        assert(self.records@.take(self.records.len() as int) =~= self.records@);
        n
    }

    /// The place of the record that bears the name `id`.
    fn find_record(&self, id: StakeId) -> (place: Option<usize>)
        ensures
            match place {
                Some(k) => k < self@.records.len() && self@.records[k as int].unique_id == id,
                None => !has_record(self@.records, id),
            },
    {
        let mut i: usize = 0;
        while i < self.records.len()
            invariant
                i <= self.records.len(),
                forall|k: int| 0 <= k < i ==> (#[trigger] self.records@[k]).unique_id != id,
            decreases self.records.len() - i,
        {
            if self.records[i].unique_id == id {
                return Some(i);
            }
            i += 1;
        }
        None
    }

    /// Whether a withdrawal of the stake `id` is pending.
    fn pending(&self, id: StakeId) -> (b: bool)
        ensures
            b == is_pending(self@.queue, id),
    {
        let mut i: usize = 0;
        while i < self.queue.len()
            invariant
                i <= self.queue.len(),
                forall|k: int| 0 <= k < i ==> (#[trigger] self.queue@[k]).unique_id != id,
            decreases self.queue.len() - i,
        {
            if self.queue[i].unique_id == id {
                return true;
            }
            i += 1;
        }
        false
    }

    /// Locks `amount` of `currency` from the spendable balance of `account`
    /// for `duration` blocks, starting at block `now`, and hands out the name
    /// of the new stake.
    ///
    /// The request is refused, and nothing changes, for the first of these
    /// reasons that holds: no tier offers the duration, the amount is below
    /// the smallest stake, the account cannot spend the amount, the account
    /// holds as many stakes as it may, the pool or the supply of names would
    /// leave its range.
    pub fn stake(
        &mut self,
        ledger: &mut Balances,
        now: BlockNumber,
        account: AccountId,
        currency: CurrencyId,
        amount: Balance,
        duration: BlockNumber,
    ) -> (r: Result<StakeId, Error>)
        requires
            old(self).wf(),
            old(ledger).wf(),
        ensures
            final(self).wf(),
            final(ledger).wf(),
            match r {
                Ok(id) => {
                    &&& old(self)@.stake_refusal(old(ledger)@, account, currency, amount, duration).is_none()
                    &&& id == old(self)@.new_record(now, account, currency, amount, duration).unique_id
                    &&& final(self)@ == old(self)@.staked(now, account, currency, amount, duration)
                    &&& final(ledger)@ == debited(old(ledger)@, account, currency, amount as nat)
                },
                Err(e) => {
                    &&& old(self)@.stake_refusal(old(ledger)@, account, currency, amount, duration) == Some(e)
                    &&& final(self)@ == old(self)@
                    &&& final(ledger)@ == old(ledger)@
                },
            },
            final(self).with(final(ledger)) == old(self).with(old(ledger)).after(
                Call::Stake { now, account, currency, amount, duration },
            ),
    {
        let rate: Percent = match self.tiers.rate_for(duration) {
            Some(rate) => rate,
            None => {
                return Err(Error::InvalidDuration);
            },
        };
        if amount < self.params.min_stake {
            return Err(Error::AmountTooSmall);
        }
        if ledger.balance_of(account, currency) < amount {
            return Err(Error::InsufficientFunds);
        }
        if self.count_stakes(account) >= self.params.max_stakes_per_account as usize {
            return Err(Error::TooManyStakes);
        }
        let pool: Balance = self.pools.total_of(currency);
        if amount > u128::MAX - pool || self.next_nonce == u64::MAX {
            return Err(Error::ArithmeticOverflow);
        }
        proof {
            old(self)@.lemma_staked_valid(old(ledger)@, now, account, currency, amount, duration);
        }
        let debit = ledger.debit(account, currency, amount);
        assert(debit.is_ok());
        let unique_id = StakeId { account, currency, block: now, nonce: self.next_nonce };
        self.records.push(
            StakeRecord {
                unique_id,
                account,
                currency,
                initial_balance: amount,
                principal: amount,
                duration,
                reward_rate: rate,
                start_block: now,
            },
        );
        self.pools.set(currency, pool + amount);
        self.events.push(Event::Staked { account, unique_id, currency, amount, duration });
        self.next_nonce = self.next_nonce + 1;
        assert(self@ =~= old(self)@.staked(now, account, currency, amount, duration));
        Ok(unique_id)
    }

    /// Takes the record at place `k` out of the ledger and its initial
    /// balance out of the pool, and reports the payout.
    fn release(&mut self, k: usize)
        requires
            old(self).parts_wf(),
            old(self)@.stakes_sound(),
            k < old(self)@.records.len(),
        ensures
            final(self).parts_wf(),
            final(self)@ == old(self)@.released(k as int),
    {
        let r: StakeRecord = self.records.remove(k);
        let pool: Balance = self.pools.total_of(r.currency);
        proof {
            lemma_sum_covers(old(self)@.records, k as int, weight_in(r.currency));
            assert(old(self)@.pools[r.currency] == staked_total(old(self)@.records, r.currency));
        }
        self.pools.set(r.currency, pool - r.initial_balance);
        self.events.push(
            Event::Unstaked {
                account: r.account,
                unique_id: r.unique_id,
                currency: r.currency,
                initial_balance: r.initial_balance,
                principal: r.principal,
            },
        );
        assert(self@ =~= old(self)@.released(k as int));
    }

    /// Puts `entry` into the queue behind every entry that unlocks at the
    /// same block or before.
    fn enqueue(&mut self, entry: UnstakeQueueEntry)
        requires
            old(self).parts_wf(),
        ensures
            final(self).parts_wf(),
            final(self)@ == (StakingState {
                queue: old(self)@.queue.insert(due_len(old(self)@.queue, entry.unlock_block) as int, entry),
                ..old(self)@
            }),
    {
        let mut at: usize = 0;
        while at < self.queue.len() && self.queue[at].unlock_block <= entry.unlock_block
            invariant
                at <= self.queue.len(),
                forall|j: int| 0 <= j < at ==> (#[trigger] self.queue@[j]).unlock_block <= entry.unlock_block,
            decreases self.queue.len() - at,
        {
            at += 1;
        }
        proof {
            lemma_due_len_is(self.queue@, entry.unlock_block, at as int);
        }
        self.queue.insert(at, entry);
        assert(self@ =~= (StakingState {
            queue: old(self)@.queue.insert(due_len(old(self)@.queue, entry.unlock_block) as int, entry),
            ..old(self)@
        }));
    }

    /// Withdraws the stake `stake_id` of `account` at block `now`.
    ///
    /// A stake that has run its duration is paid out at once: the account
    /// receives the principal, the initial balance leaves the pool, and the
    /// record is gone. For a stake that has not, the request is refused
    /// unless `allow_early_with_deferral` is set; if it is, the account pays
    /// the fee at once and the stake waits in the queue for the forced delay,
    /// still active and still earning.
    ///
    /// The request is refused, and nothing changes, for the first reason that
    /// `unstake_refusal` finds. A stake for which a withdrawal is pending
    /// cannot be withdrawn again.
    pub fn unstake(
        &mut self,
        ledger: &mut Balances,
        now: BlockNumber,
        account: AccountId,
        stake_id: StakeId,
        allow_early_with_deferral: bool,
    ) -> (r: Result<(), Error>)
        requires
            old(self).wf(),
            old(ledger).wf(),
        ensures
            final(self).wf(),
            final(ledger).wf(),
            match r {
                Ok(()) => {
                    &&& old(self)@.unstake_refusal(
                        old(ledger)@,
                        now,
                        account,
                        stake_id,
                        allow_early_with_deferral,
                    ).is_none()
                    &&& final(self)@ == old(self)@.unstaked(now, stake_id)
                    &&& final(ledger)@ == old(self)@.unstake_settled(old(ledger)@, now, stake_id)
                },
                Err(e) => {
                    &&& old(self)@.unstake_refusal(old(ledger)@, now, account, stake_id, allow_early_with_deferral)
                        == Some(e)
                    &&& final(self)@ == old(self)@
                    &&& final(ledger)@ == old(ledger)@
                },
            },
            final(self).with(final(ledger)) == old(self).with(old(ledger)).after(
                Call::Unstake { now, account, stake_id, allow_early_with_deferral },
            ),
    {
        let k: usize = match self.find_record(stake_id) {
            Some(k) => k,
            None => {
                return Err(Error::StakeNotFound);
            },
        };
        proof {
            self@.lemma_index_unique(stake_id, k as int);
        }
        let record: StakeRecord = self.records[k];
        if record.account != account || self.pending(stake_id) {
            return Err(Error::StakeNotFound);
        }
        if now as u64 >= record.start_block as u64 + record.duration as u64 {
            if !ledger.can_credit(account, record.currency, record.principal) {
                return Err(Error::ArithmeticOverflow);
            }
            proof {
                self@.lemma_released_valid(k as int);
            }
            let credit = ledger.credit(account, record.currency, record.principal);
            assert(credit.is_ok());
            self.release(k);
            return Ok(());
        }
        if !allow_early_with_deferral {
            return Err(Error::StakeNotMatured);
        }
        let unlock_block: BlockNumber = match now.checked_add(self.params.forced_unlock_delay) {
            Some(block) => block,
            None => {
                return Err(Error::ArithmeticOverflow);
            },
        };
        if self.queue.len() >= self.params.queue_capacity as usize {
            return Err(Error::QueueFull);
        }
        let fee: Balance = self.params.unstake_fee.share_of(record.initial_balance);
        if ledger.balance_of(account, record.currency) < fee {
            return Err(Error::InsufficientFunds);
        }
        proof {
            self@.lemma_deferred_valid(now, k as int);
        }
        let debit = ledger.debit(account, record.currency, fee);
        assert(debit.is_ok());
        let entry = UnstakeQueueEntry { unique_id: stake_id, account, unlock_block, fee_charged: fee };
        self.enqueue(entry);
        self.events.push(Event::UnstakeQueued { account, unique_id: stake_id, fee, unlock_block });
        assert(self@ =~= old(self)@.deferred(now, k as int));
        Ok(())
    }

    /// Shares out the fee collected in `currency` among the stakes of that
    /// currency.
    fn distribute_one(&mut self, currency: CurrencyId, fee: Balance)
        requires
            old(self).wf(),
        ensures
            final(self).wf(),
            final(self)@ == old(self)@.distributed_one(currency, fee),
    {
        let total: Balance = self.pools.total_of(currency);
        let ghost before = self@;
        let mut i: usize = 0;
        assert(self.records@.take(0) =~= Seq::<StakeRecord>::empty());
        assert(self.events@ =~= before.events + skipped_rewards(before.records.take(0), currency, fee, total as nat));
        while i < self.records.len()
            invariant
                before == old(self)@,
                before.valid(),
                self.parts_wf(),
                total == before.pools[currency],
                i <= self.records.len(),
                self.records@.len() == before.records.len(),
                forall|j: int| 0 <= j < i ==> #[trigger] self.records@[j] == rewarded(
                    before.records[j],
                    currency,
                    fee,
                    total as nat,
                ),
                forall|j: int| i <= j < self.records@.len() ==> #[trigger] self.records@[j] == before.records[j],
                self.events@ == before.events + skipped_rewards(
                    before.records.take(i as int),
                    currency,
                    fee,
                    total as nat,
                ),
                self@ == (StakingState { records: self.records@, events: self.events@, ..before }),
            decreases self.records.len() - i,
        {
            let record: StakeRecord = self.records[i];
            proof {
                assert(before.records.take(i + 1) =~= before.records.take(i as int).push(before.records[i as int]));
                assert(before.records.take(i + 1).drop_last() =~= before.records.take(i as int));
            }
            if record.currency == currency {
                proof {
                    lemma_sum_covers(before.records, i as int, weight_in(currency));
                    assert(before.pools[currency] == staked_total(before.records, currency));
                }
                let reward: Balance = proportional_share(
                    record.reward_rate.share_of(fee),
                    record.initial_balance,
                    total,
                );
                assert(reward == reward_of(record, fee, total as nat));
                match record.principal.checked_add(reward) {
                    Some(principal) => {
                        self.records[i] = StakeRecord { principal, ..record };
                    },
                    None => {
                        assert(reward_skipped(record, currency, fee, total as nat));
                        self.events.push(
                            Event::RewardSkipped { account: record.account, unique_id: record.unique_id },
                        );
                    },
                }
            }
            i += 1;
        }
        proof {
            assert(before.records.take(before.records.len() as int) =~= before.records);
            assert(self@ =~= before.distributed_one(currency, fee));
            before.lemma_distributed_one_valid(currency, fee);
        }
    }

    /// Shares out the fees that a session collected, given as pairs of a
    /// currency and the fee collected in it.
    ///
    /// For every pair in turn, each stake of that currency earns the share
    /// of the fee that its tier's rate names, in the proportion of its
    /// initial balance to the currency's pool, rounded down. A stake whose
    /// principal cannot hold its reward is passed over and reported; all
    /// others are rewarded. The call cannot fail.
    pub fn distribute(&mut self, session_fees: Vec<(CurrencyId, Balance)>) -> (r: Result<(), Error>)
        requires
            old(self).wf(),
        ensures
            final(self).wf(),
            r == Ok::<(), Error>(()),
            final(self)@ == old(self)@.distributed(session_fees@),
            forall|ledger: &Balances|
                #![trigger old(self).with(ledger)]
                final(self).with(ledger) == old(self).with(ledger).after(
                    Call::Distribute { session_fees: session_fees@ },
                ),
    {
        let mut k: usize = 0;
        assert(session_fees@.take(0) =~= Seq::<(CurrencyId, Balance)>::empty());
        while k < session_fees.len()
            invariant
                k <= session_fees.len(),
                self.wf(),
                self@ == old(self)@.distributed(session_fees@.take(k as int)),
            decreases session_fees.len() - k,
        {
            let currency: CurrencyId = session_fees[k].0;
            let fee: Balance = session_fees[k].1;
            proof {
                assert(session_fees@.take(k + 1).drop_last() =~= session_fees@.take(k as int));
                assert(session_fees@.take(k + 1).last() == session_fees@[k as int]);
            }
            self.distribute_one(currency, fee);
            k += 1;
        }
        assert(session_fees@.take(session_fees.len() as int) =~= session_fees@);
        Ok(())
    }

    /// Pays out the pending withdrawals that are due at block `now`, as far
    /// as `budget` allows, and hands back what is left of the budget.
    ///
    /// The queue is walked from its head. The walk ends at the first entry
    /// that unlocks after `now`, when the budget no longer covers the cost of
    /// one payout, or at the end of the queue. A due entry is paid out: the
    /// account receives the stake's principal as it is then, the initial
    /// balance leaves the pool, and entry and record are gone. If the
    /// account's balance cannot hold the principal, the entry is reported,
    /// stays queued at no cost, and the walk goes on behind it.
    pub fn drain(&mut self, ledger: &mut Balances, now: BlockNumber, budget: Weight) -> (left: Weight)
        requires
            old(self).wf(),
            old(ledger).wf(),
        ensures
            final(self).wf(),
            final(ledger).wf(),
            final(self)@ == old(self)@.drained(old(ledger)@, now, budget).state,
            final(ledger)@ == old(self)@.drained(old(ledger)@, now, budget).balances,
            left == old(self)@.drained(old(ledger)@, now, budget).budget,
            left <= budget,
            due_len(old(self)@.queue, now) == 0 ==> final(self)@ == old(self)@ && final(ledger)@ == old(ledger)@
                && left == budget,
            final(self).with(final(ledger)) == old(self).with(old(ledger)).after(Call::Drain { now, budget }),
    {
        let ghost goal = old(self)@.drained(old(ledger)@, now, budget);
        proof {
            if due_len(old(self)@.queue, now) == 0 {
                old(self)@.lemma_drained_nothing_due(old(ledger)@, now, budget);
            }
        }
        let cost: Weight = self.params.finalize_cost;
        let mut left: Weight = budget;
        let mut i: usize = 0;
        while i < self.queue.len() && self.queue[i].unlock_block <= now && left >= cost
            invariant
                self.wf(),
                ledger.wf(),
                cost == self@.params.finalize_cost,
                left <= budget,
                i <= self.queue.len(),
                self@.drained_from(ledger@, now, left, i as nat) == goal,
            decreases self.queue.len() - i,
        {
            let entry: UnstakeQueueEntry = self.queue[i];
            let ghost state = self@;
            let ghost balances = ledger@;
            assert(!state.drain_stops(now, left, i as nat));
            assert(has_record(state.records, entry.unique_id));
            match self.find_record(entry.unique_id) {
                Some(k) => {
                    proof {
                        state.lemma_index_unique(entry.unique_id, k as int);
                    }
                    let record: StakeRecord = self.records[k];
                    if ledger.can_credit(record.account, record.currency, record.principal) {
                        assert(state.payable(balances, i as int));
                        let credit = ledger.credit(record.account, record.currency, record.principal);
                        assert(credit.is_ok());
                        self.release(k);
                        self.queue.remove(i);
                        left = left - cost;
                        proof {
                            assert(self@ =~= state.finalized(i as int));
                            state.lemma_finalized_valid(i as int);
                        }
                    } else {
                        assert(!state.payable(balances, i as int));
                        self.events.push(
                            Event::UnstakeSkipped { account: entry.account, unique_id: entry.unique_id },
                        );
                        assert(self@ =~= state.passed_over(i as int));
                        i += 1;
                    }
                },
                None => {
                    assert(false);
                },
            }
        }
        assert(self@.drain_stops(now, left, i as nat));
        left
    }

    /// Whether the balance of `account` in `currency` could hold the
    /// principals of all its stakes of that currency.
    fn holdings_fit(&self, ledger: &Balances, account: AccountId, currency: CurrencyId) -> (fit: bool)
        requires
            ledger.wf(),
        ensures
            fit == (self.with(ledger).holdings(account, currency) <= max_balance()),
    {
        let mut sum: Balance = ledger.balance_of(account, currency);
        let mut i: usize = 0;
        assert(self.records@.take(0) =~= Seq::<StakeRecord>::empty());
        while i < self.records.len()
            invariant
                i <= self.records.len(),
                sum == ledger@[(account, currency)] + sum_by(
                    self.records@.take(i as int),
                    locked_in(account, currency),
                ),
            decreases self.records.len() - i,
        {
            let record: StakeRecord = self.records[i];
            proof {
                assert(self.records@.take(i + 1) =~= self.records@.take(i as int).push(self.records[i as int]));
                lemma_sum_push(self.records@.take(i as int), self.records[i as int], locked_in(account, currency));
                lemma_sum_prefix(self.records@, i + 1, locked_in(account, currency));
            }
            if record.account == account && record.currency == currency {
                match sum.checked_add(record.principal) {
                    Some(more) => {
                        sum = more;
                    },
                    None => {
                        return false;
                    },
                }
            }
            i += 1;
        }
        assert(self.records@.take(self.records.len() as int) =~= self.records@);
        true
    }

    /// Whether every account could be paid all its stakes at once.
    fn refundable(&self, ledger: &Balances) -> (fit: bool)
        requires
            ledger.wf(),
        ensures
            fit == self.with(ledger).refundable(),
    {
        let mut k: usize = 0;
        while k < self.records.len()
            invariant
                ledger.wf(),
                k <= self.records.len(),
                forall|j: int|
                    0 <= j < k ==> self.with(ledger).holdings(
                        (#[trigger] self.records@[j]).account,
                        self.records@[j].currency,
                    ) <= max_balance(),
            decreases self.records.len() - k,
        {
            if !self.holdings_fit(ledger, self.records[k].account, self.records[k].currency) {
                return false;
            }
            k += 1;
        }
        proof {
            assert forall|account: AccountId, currency: CurrencyId| #[trigger]
                self.with(ledger).holdings(account, currency) <= max_balance() by {
                ledger.lemma_balances_bounded(account, currency);
                if exists|j: int|
                    0 <= j < self.records@.len() && (#[trigger] self.records@[j]).account == account
                        && self.records@[j].currency == currency {
                    let j = choose|j: int|
                        0 <= j < self.records@.len() && (#[trigger] self.records@[j]).account == account
                            && self.records@[j].currency == currency;
                    assert(self.with(ledger).holdings(self.records@[j].account, self.records@[j].currency)
                        <= max_balance());
                } else {
                    assert forall|j: int| 0 <= j < self.records@.len() implies locked_in(account, currency)(
                        #[trigger] self.records@[j],
                    ) == 0 by {
                    }
                    lemma_zero_sum(self.records@, locked_in(account, currency));
                }
            }
        }
        true
    }

    /// Moves a ledger that was found at storage version `version` to
    /// version 1, and says at which version the ledger now is and what the
    /// step cost, where one read of storage costs `read` and one write
    /// `write`.
    ///
    /// A ledger at version 1 or later is left as it is, at the cost of one
    /// read. An older ledger is emptied: every stake ends and its principal
    /// is paid to its account, pending withdrawals go with their stakes, the
    /// standard tiers are put on offer and the fee for early withdrawal is
    /// set to one percent, at the cost of one read and five writes. If some
    /// balance could not hold what its account would be paid, nothing is
    /// changed, the ledger stays at its version, and one read is charged.
    pub fn migrate_to_v1(&mut self, ledger: &mut Balances, version: u16, read: u64, write: u64) -> (r: (
        u16,
        Weight,
    ))
        requires
            old(self).wf(),
            old(ledger).wf(),
        ensures
            final(self).wf(),
            final(ledger).wf(),
            version >= 1 || !old(self).with(old(ledger)).refundable() ==> {
                &&& r.0 == version
                &&& r.1 == sat_mul(read as nat, 1)
                &&& final(self)@ == old(self)@
                &&& final(ledger)@ == old(ledger)@
            },
            version < 1 && old(self).with(old(ledger)).refundable() ==> {
                &&& r.0 == 1
                &&& r.1 == sat_add(sat_mul(read as nat, 1), sat_mul(write as nat, 5))
                &&& final(self)@ == old(self)@.migrated_to_v1()
                &&& final(ledger)@ == old(self).with(old(ledger)).refunded()
            },
            final(self).with(final(ledger)) == old(self).with(old(ledger)).after(Call::MigrateToV1 { version }),
    {
        if version >= 1 || !self.refundable(ledger) {
            return (version, db_reads(read, write, 1));
        }
        let ghost before = self@;
        let ghost world = self.with(ledger);
        let mut k: usize = 0;
        assert(self.records@.take(0) =~= Seq::<StakeRecord>::empty());
        assert(self.events@ =~= before.events + before.records.take(0).map_values(
            |r: StakeRecord| StakingState::end_of(r),
        ));
        assert forall|a: AccountId, c: CurrencyId| #[trigger] ledger@[(a, c)] == world.balances[(a, c)] + sum_by(
            before.records.take(0),
            locked_in(a, c),
        ) by {
        }
        while k < self.records.len()
            invariant
                ledger.wf(),
                world.refundable(),
                world.state == before,
                k <= self.records.len(),
                self.records@ == before.records,
                self@ == (StakingState { events: self.events@, ..before }),
                self.parts_wf(),
                self.events@ == before.events + before.records.take(k as int).map_values(
                    |r: StakeRecord| StakingState::end_of(r),
                ),
                forall|a: AccountId, c: CurrencyId| #[trigger]
                    ledger@[(a, c)] == world.balances[(a, c)] + sum_by(
                        before.records.take(k as int),
                        locked_in(a, c),
                    ),
            decreases self.records.len() - k,
        {
            let record: StakeRecord = self.records[k];
            let ghost paid = ledger@;
            proof {
                assert(before.records.take(k + 1) =~= before.records.take(k as int).push(record));
                assert forall|a: AccountId, c: CurrencyId| #[trigger]
                    sum_by(before.records.take(k + 1), locked_in(a, c)) == sum_by(
                        before.records.take(k as int),
                        locked_in(a, c),
                    ) + locked_in(a, c)(record) by {
                    lemma_sum_push(before.records.take(k as int), record, locked_in(a, c));
                }
                lemma_sum_prefix(before.records, k + 1, locked_in(record.account, record.currency));
                assert(world.holdings(record.account, record.currency) <= max_balance());
                assert(paid[(record.account, record.currency)] == world.balances[(
                    record.account,
                    record.currency,
                )] + sum_by(before.records.take(k as int), locked_in(record.account, record.currency)));
            }
            let credit = ledger.credit(record.account, record.currency, record.principal);
            assert(credit.is_ok());
            self.events.push(
                Event::Unstaked {
                    account: record.account,
                    unique_id: record.unique_id,
                    currency: record.currency,
                    initial_balance: record.initial_balance,
                    principal: record.principal,
                },
            );
            proof {
                assert(before.records.take(k + 1).map_values(|r: StakeRecord| StakingState::end_of(r))
                    =~= before.records.take(k as int).map_values(|r: StakeRecord| StakingState::end_of(r)).push(
                    StakingState::end_of(record),
                ));
                assert forall|a: AccountId, c: CurrencyId| #[trigger] ledger@[(a, c)] == world.balances[(a, c)]
                    + sum_by(before.records.take(k + 1), locked_in(a, c)) by {
                    assert(paid[(a, c)] == world.balances[(a, c)] + sum_by(
                        before.records.take(k as int),
                        locked_in(a, c),
                    ));
                }
            }
            k += 1;
        }
        self.tiers = TierTable::standard();
        self.params.unstake_fee = Percent::from_parts(1);
        self.records = Vec::new();
        self.pools = PoolTotals::new();
        self.queue = Vec::new();
        proof {
            assert(before.records.take(before.records.len() as int) =~= before.records);
            assert(self@ =~= before.migrated_to_v1());
            before.lemma_migrated_valid();
            assert forall|key: (AccountId, CurrencyId)| #[trigger] ledger@.dom().contains(key) by {
                ledger.lemma_balances_bounded(key.0, key.1);
            }
            assert forall|key: (AccountId, CurrencyId)| #[trigger] ledger@[key] == world.refunded()[key] by {
                let (a, c) = key;
                assert(ledger@[(a, c)] == world.balances[(a, c)] + sum_by(
                    before.records.take(before.records.len() as int),
                    locked_in(a, c),
                ));
                assert(world.refunded()[key] == world.holdings(a, c));
            }
            assert(ledger@ =~= world.refunded());
        }
        (1, db_reads_writes(read, write, 1, 5))
    }
}

} // verus!
