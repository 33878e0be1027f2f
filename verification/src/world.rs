//! A ledger together with the balances around it, and what a call makes of
//! both.
//!
//! `Call` names what can be asked: the four operations of the ledger, its
//! upkeep, and the movements of funds that go past it. `World::after` says
//! what a call makes of a world; the contracts of the executable operations
//! say the same of what they leave behind.

use vstd::prelude::*;
use crate::balances::{credited, debited, BalanceMap};
use crate::primitives::{max_balance, AccountId, Balance, BlockNumber, CurrencyId, StakeId, Weight};
use crate::records::{sum_by, Params, StakeRecord};
use crate::state::StakingState;
use crate::tiers::{durations_distinct, DurationTier};

verus! {

/// A ledger and the balances around it.
pub struct World {
    pub state: StakingState,
    pub balances: BalanceMap,
}

/// One thing that can be asked of the ledger or of the balances around it.
pub enum Call {
    Stake { now: BlockNumber, account: AccountId, currency: CurrencyId, amount: Balance, duration: BlockNumber },
    Unstake { now: BlockNumber, account: AccountId, stake_id: StakeId, allow_early_with_deferral: bool },
    Distribute { session_fees: Seq<(CurrencyId, Balance)> },
    Drain { now: BlockNumber, budget: Weight },
    /// The tiers on offer are replaced.
    SetTiers { tiers: Seq<DurationTier> },
    /// The reports are collected.
    TakeEvents,
    /// An account receives funds from outside the ledger.
    Credit { account: AccountId, currency: CurrencyId, amount: Balance },
    /// An account spends funds outside the ledger.
    Debit { account: AccountId, currency: CurrencyId, amount: Balance },
    /// The ledger, found at storage version `version`, is moved to version 1.
    MigrateToV1 { version: u16 },
}

/// The principal of a record of `account` in `currency`, and nothing for
/// another.
pub open spec fn locked_in(account: AccountId, currency: CurrencyId) -> spec_fn(StakeRecord) -> nat {
    |r: StakeRecord|
        if r.account == account && r.currency == currency {
            r.principal as nat
        } else {
            0
        }
}

impl World {
    /// The world in which nothing was staked yet.
    pub open spec fn initial(tiers: Seq<DurationTier>, params: Params, balances: BalanceMap) -> World {
        World { state: StakingState::initial(tiers, params), balances }
    }

    /// The world after `call` was answered. A call that is refused changes
    /// nothing.
    pub open spec fn after(self, call: Call) -> World {
        match call {
            Call::Stake { now, account, currency, amount, duration } => {
                if self.state.stake_refusal(self.balances, account, currency, amount, duration).is_none() {
                    World {
                        state: self.state.staked(now, account, currency, amount, duration),
                        balances: debited(self.balances, account, currency, amount as nat),
                    }
                } else {
                    self
                }
            },
            Call::Unstake { now, account, stake_id, allow_early_with_deferral } => {
                if self.state.unstake_refusal(
                    self.balances,
                    now,
                    account,
                    stake_id,
                    allow_early_with_deferral,
                ).is_none() {
                    World {
                        state: self.state.unstaked(now, stake_id),
                        balances: self.state.unstake_settled(self.balances, now, stake_id),
                    }
                } else {
                    self
                }
            },
            Call::Distribute { session_fees } => {
                World { state: self.state.distributed(session_fees), balances: self.balances }
            },
            Call::Drain { now, budget } => {
                let d = self.state.drained(self.balances, now, budget);
                World { state: d.state, balances: d.balances }
            },
            Call::SetTiers { tiers } => {
                if durations_distinct(tiers) {
                    World { state: StakingState { tiers, ..self.state }, balances: self.balances }
                } else {
                    self
                }
            },
            Call::TakeEvents => {
                World { state: StakingState { events: Seq::empty(), ..self.state }, balances: self.balances }
            },
            Call::Credit { account, currency, amount } => {
                if self.balances[(account, currency)] + amount <= max_balance() {
                    World { state: self.state, balances: credited(self.balances, account, currency, amount as nat) }
                } else {
                    self
                }
            },
            Call::Debit { account, currency, amount } => {
                if amount <= self.balances[(account, currency)] {
                    World { state: self.state, balances: debited(self.balances, account, currency, amount as nat) }
                } else {
                    self
                }
            },
            Call::MigrateToV1 { version } => {
                if version < 1 && self.refundable() {
                    World { state: self.state.migrated_to_v1(), balances: self.refunded() }
                } else {
                    self
                }
            },
        }
    }

    /// The world after `calls` were answered one after the other.
    pub open spec fn after_all(self, calls: Seq<Call>) -> World
        decreases calls.len(),
    {
        if calls.len() == 0 {
            self
        } else {
            self.after_all(calls.drop_last()).after(calls.last())
        }
    }

    /// What `account` owns of `currency`: what it can spend and what its
    /// stakes would pay.
    pub open spec fn holdings(self, account: AccountId, currency: CurrencyId) -> nat {
        self.balances[(account, currency)] + sum_by(self.state.records, locked_in(account, currency))
    }

    /// Every account could be paid all its stakes at once: what it owns of a
    /// currency fits a balance.
    pub open spec fn refundable(self) -> bool {
        forall|account: AccountId, currency: CurrencyId| #[trigger]
            self.holdings(account, currency) <= max_balance()
    }

    /// The balances after every stake was paid out: each account can spend
    /// all that it owns.
    pub open spec fn refunded(self) -> BalanceMap {
        Map::total(|key: (AccountId, CurrencyId)| self.holdings(key.0, key.1))
    }
}

} // verus!
