//! How the queue of pending withdrawals is emptied.
//!
//! The queue is walked from its head for as long as the entry at hand is due
//! and the budget covers one payout. A due entry is paid out and leaves the
//! queue together with its stake. If the account's balance cannot hold the
//! principal, the entry is passed over and reported, and stays queued.

use vstd::prelude::*;
use crate::balances::{credited, BalanceMap};
use crate::primitives::{max_balance, BlockNumber, Weight};
use crate::records::{due_len, has_record, record_index, Event, StakeRecord};
use crate::state::StakingState;

verus! {

/// What a maintenance step leaves: the ledger, the balances, and what is
/// left of the budget.
pub struct Drained {
    pub state: StakingState,
    pub balances: BalanceMap,
    pub budget: Weight,
}

impl StakingState {
    /// The stake that the entry at place `i` of the queue is for.
    pub open spec fn pending_record(self, i: int) -> StakeRecord {
        self.record_of(self.queue[i].unique_id)
    }

    /// The balance of the account can hold the principal of the stake that
    /// the entry at place `i` is for.
    pub open spec fn payable(self, balances: BalanceMap, i: int) -> bool {
        let r = self.pending_record(i);
        balances[(r.account, r.currency)] + r.principal <= max_balance()
    }

    /// The ledger after the entry at place `i` was paid out: the entry and
    /// its stake are gone.
    pub open spec fn finalized(self, i: int) -> StakingState {
        let k = record_index(self.records, self.queue[i].unique_id);
        StakingState { queue: self.queue.remove(i), ..self.released(k) }
    }

    /// The balances after the entry at place `i` was paid out: the account
    /// has received the principal.
    pub open spec fn paid_out(self, balances: BalanceMap, i: int) -> BalanceMap {
        let r = self.pending_record(i);
        credited(balances, r.account, r.currency, r.principal as nat)
    }

    /// The ledger after the entry at place `i` was passed over.
    pub open spec fn passed_over(self, i: int) -> StakingState {
        let e = self.queue[i];
        StakingState {
            events: self.events.push(Event::UnstakeSkipped { account: e.account, unique_id: e.unique_id }),
            ..self
        }
    }

    /// Whether the walk stops at place `i`: the queue has ended, the entry is
    /// not yet due, or the budget does not cover a payout.
    pub open spec fn drain_stops(self, now: BlockNumber, budget: Weight, i: nat) -> bool {
        ||| i >= self.queue.len()
        ||| self.queue[i as int].unlock_block > now
        ||| budget < self.params.finalize_cost
    }

    /// What the walk from place `i` of the queue leaves.
    pub open spec fn drained_from(self, balances: BalanceMap, now: BlockNumber, budget: Weight, i: nat) -> Drained
        decreases self.queue.len() - i,
    {
        if self.drain_stops(now, budget, i) {
            Drained { state: self, balances, budget }
        } else if self.payable(balances, i as int) {
            self.finalized(i as int).drained_from(
                self.paid_out(balances, i as int),
                now,
                (budget - self.params.finalize_cost) as Weight,
                i,
            )
        } else {
            self.passed_over(i as int).drained_from(balances, now, budget, i + 1)
        }
    }

    /// What a maintenance step at block `now` with `budget` leaves.
    pub open spec fn drained(self, balances: BalanceMap, now: BlockNumber, budget: Weight) -> Drained {
        self.drained_from(balances, now, budget, 0)
    }

    /// Paying out a pending withdrawal leaves a valid ledger.
    pub proof fn lemma_finalized_valid(self, i: int)
        requires
            self.valid(),
            0 <= i < self.queue.len(),
        ensures
            self.finalized(i).valid(),
    {
        let id = self.queue[i].unique_id;
        let k = record_index(self.records, id);
        let next = self.finalized(i);
        assert(has_record(self.records, id));
        self.lemma_released_stakes_sound(k);
        assert forall|a: int, b: int| 0 <= a < b < next.queue.len() implies (#[trigger] next.queue[a]).unlock_block
            <= (#[trigger] next.queue[b]).unlock_block && next.queue[a].unique_id != next.queue[b].unique_id by {
            let a0 = if a < i { a } else { a + 1 };
            let b0 = if b < i { b } else { b + 1 };
            assert(self.queue[a0].unlock_block <= self.queue[b0].unlock_block);
            assert(self.queue[a0].unique_id != self.queue[b0].unique_id);
        }
        assert forall|a: int| 0 <= a < next.queue.len() implies has_record(
            next.records,
            (#[trigger] next.queue[a]).unique_id,
        ) && next.queue[a].account == next.queue[a].unique_id.account by {
            let a0 = if a < i { a } else { a + 1 };
            assert(next.queue[a] == self.queue[a0]);
            if a0 < i {
                assert(self.queue[a0].unique_id != self.queue[i].unique_id);
            } else {
                assert(self.queue[i].unique_id != self.queue[a0].unique_id);
            }
            assert(has_record(self.records, self.queue[a0].unique_id));
        }
    }

    /// A maintenance step leaves a valid ledger.
    pub proof fn lemma_drained_valid(self, balances: BalanceMap, now: BlockNumber, budget: Weight, i: nat)
        requires
            self.valid(),
        ensures
            self.drained_from(balances, now, budget, i).state.valid(),
        decreases self.queue.len() - i,
    {
        if self.drain_stops(now, budget, i) {
        } else if self.payable(balances, i as int) {
            self.lemma_finalized_valid(i as int);
            self.finalized(i as int).lemma_drained_valid(
                self.paid_out(balances, i as int),
                now,
                (budget - self.params.finalize_cost) as Weight,
                i,
            );
        } else {
            self.passed_over(i as int).lemma_drained_valid(balances, now, budget, i + 1);
        }
    }

    /// A maintenance step that finds nothing due at the head of the queue
    /// changes nothing and hands the whole budget back.
    pub proof fn lemma_drained_nothing_due(self, balances: BalanceMap, now: BlockNumber, budget: Weight)
        requires
            due_len(self.queue, now) == 0,
        ensures
            self.drained(balances, now, budget) == (Drained { state: self, balances, budget }),
    {
    }
}

} // verus!
