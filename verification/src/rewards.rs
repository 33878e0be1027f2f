//! How the fees of a session are shared out among the stakes.
//!
//! Of the fees collected in a currency, a stake can earn the fraction that
//! the rate of its own tier names, as that rate was when the stake was made:
//! this is the stake's reward pool. Of it the stake receives the part that
//! its initial balance is of the currency's pool, rounded down. What the
//! rounding leaves over is handed to nobody: each reward falls short of the
//! exact share by less than one unit, and the rewards of stakes of one rate
//! never come to more than their reward pool.
//!
//! A stake whose principal cannot hold its reward is passed over and
//! reported; the others are rewarded all the same.

use vstd::prelude::*;
use crate::percent::percent_of;
use crate::primitives::{max_balance, AccountId, Balance, CurrencyId};
use crate::records::{
    has_record, lemma_sum_pointwise, one_if_of, record_index, stakes_held, sum_by, staked_total, weight_in, Event,
    StakeRecord,
};
use crate::share::share;
use crate::state::{record_valid, StakingState};

verus! {

/// What a stake of the rate of `r` can earn of `fee` at most: the rate's
/// share of the fee.
pub open spec fn reward_pool(r: StakeRecord, fee: Balance) -> nat {
    percent_of(r.reward_rate.parts(), fee as nat)
}

/// What `r` earns of `fee` when `total` is locked in its currency.
pub open spec fn reward_of(r: StakeRecord, fee: Balance, total: nat) -> nat {
    share(reward_pool(r, fee), r.initial_balance as nat, total)
}

/// The principal of `r` can hold its reward.
pub open spec fn reward_fits(r: StakeRecord, fee: Balance, total: nat) -> bool {
    r.principal + reward_of(r, fee, total) <= max_balance()
}

/// `r` after the fee of `currency` was shared out: richer by its reward if it
/// is of that currency and can hold it, unchanged otherwise.
pub open spec fn rewarded(r: StakeRecord, currency: CurrencyId, fee: Balance, total: nat) -> StakeRecord {
    if r.currency == currency && reward_fits(r, fee, total) {
        StakeRecord { principal: (r.principal + reward_of(r, fee, total)) as u128, ..r }
    } else {
        r
    }
}

/// `r` is of `currency` and cannot hold its reward.
pub open spec fn reward_skipped(r: StakeRecord, currency: CurrencyId, fee: Balance, total: nat) -> bool {
    r.currency == currency && !reward_fits(r, fee, total)
}

/// The reports of the records that were passed over, in the order of the
/// records.
pub open spec fn skipped_rewards(records: Seq<StakeRecord>, currency: CurrencyId, fee: Balance, total: nat) -> Seq<
    Event,
>
    decreases records.len(),
{
    if records.len() == 0 {
        Seq::empty()
    } else {
        let before = skipped_rewards(records.drop_last(), currency, fee, total);
        let r = records.last();
        if reward_skipped(r, currency, fee, total) {
            before.push(Event::RewardSkipped { account: r.account, unique_id: r.unique_id })
        } else {
            before
        }
    }
}

/// The reward of a record of `currency`, and nothing for another.
pub open spec fn reward_in(currency: CurrencyId, fee: Balance, total: nat) -> spec_fn(StakeRecord) -> nat {
    |r: StakeRecord|
        if r.currency == currency {
            reward_of(r, fee, total)
        } else {
            0
        }
}

/// The principal of a record of `currency`, and nothing for another.
pub open spec fn principal_in(currency: CurrencyId) -> spec_fn(StakeRecord) -> nat {
    |r: StakeRecord|
        if r.currency == currency {
            r.principal as nat
        } else {
            0
        }
}

/// What the stakes of `currency` would be paid together.
pub open spec fn principal_total(records: Seq<StakeRecord>, currency: CurrencyId) -> nat {
    sum_by(records, principal_in(currency))
}

impl StakingState {
    /// The ledger after the fee collected in `currency` was shared out.
    pub open spec fn distributed_one(self, currency: CurrencyId, fee: Balance) -> StakingState {
        let total = self.pools[currency];
        StakingState {
            records: self.records.map_values(|r: StakeRecord| rewarded(r, currency, fee, total)),
            events: self.events + skipped_rewards(self.records, currency, fee, total),
            ..self
        }
    }

    /// The ledger after the fees of a session were shared out, one currency
    /// after the other in the order given.
    pub open spec fn distributed(self, fees: Seq<(CurrencyId, Balance)>) -> StakingState
        decreases fees.len(),
    {
        if fees.len() == 0 {
            self
        } else {
            self.distributed(fees.drop_last()).distributed_one(fees.last().0, fees.last().1)
        }
    }

    /// Sharing out a fee leaves a valid ledger.
    pub proof fn lemma_distributed_one_valid(self, currency: CurrencyId, fee: Balance)
        requires
            self.valid(),
        ensures
            self.distributed_one(currency, fee).valid(),
    {
        let total = self.pools[currency];
        let next = self.distributed_one(currency, fee);
        assert forall|k: int| 0 <= k < next.records.len() implies record_valid(
            #[trigger] next.records[k],
            next.next_nonce,
        ) by {
            assert(record_valid(self.records[k], self.next_nonce));
        }
        assert forall|i: int, j: int| 0 <= i < j < next.records.len() implies (
        #[trigger] next.records[i]).unique_id.nonce != (#[trigger] next.records[j]).unique_id.nonce by {
            assert(self.records[i].unique_id.nonce != self.records[j].unique_id.nonce);
        }
        assert forall|a: AccountId| #[trigger] stakes_held(next.records, a) <= next.params.max_stakes_per_account by {
            lemma_sum_pointwise(next.records, self.records, one_if_of(a));
            assert(stakes_held(self.records, a) <= self.params.max_stakes_per_account);
        }
        assert forall|c: CurrencyId| #[trigger] next.pools[c] == staked_total(next.records, c) by {
            lemma_sum_pointwise(next.records, self.records, weight_in(c));
            assert(self.pools[c] == staked_total(self.records, c));
        }
        assert forall|k: int| 0 <= k < next.queue.len() implies has_record(
            next.records,
            (#[trigger] next.queue[k]).unique_id,
        ) && next.queue[k].account == next.queue[k].unique_id.account by {
            let id = self.queue[k].unique_id;
            assert(has_record(self.records, id));
            let at = record_index(self.records, id);
            assert(next.records[at].unique_id == id);
        }
    }

    /// Sharing out the fees of a session leaves a valid ledger.
    pub proof fn lemma_distributed_valid(self, fees: Seq<(CurrencyId, Balance)>)
        requires
            self.valid(),
        ensures
            self.distributed(fees).valid(),
        decreases fees.len(),
    {
        if fees.len() > 0 {
            self.lemma_distributed_valid(fees.drop_last());
            self.distributed(fees.drop_last()).lemma_distributed_one_valid(fees.last().0, fees.last().1);
        }
    }
}

} // verus!
