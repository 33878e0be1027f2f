//! The amount locked in each currency.

use vstd::prelude::*;
use crate::primitives::{Balance, CurrencyId};

verus! {

/// What is locked in every currency. A currency that was never staked has
/// nothing locked.
pub type PoolMap = Map<CurrencyId, nat>;

/// The totals in which nothing is locked.
pub open spec fn no_pools() -> PoolMap {
    Map::total(|currency: CurrencyId| 0nat)
}

#[derive(Clone, Copy, Debug)]
struct Pool {
    currency: CurrencyId,
    total: Balance,
}

/// The pool at place `i` is that of `currency`.
spec fn is_pool(pools: Seq<Pool>, currency: CurrencyId, i: int) -> bool {
    0 <= i < pools.len() && pools[i].currency == currency
}

/// What the pools say is locked in `currency`.
spec fn pooled(pools: Seq<Pool>, currency: CurrencyId) -> nat {
    if exists|i: int| is_pool(pools, currency, i) {
        pools[choose|i: int| is_pool(pools, currency, i)].total as nat
    } else {
        0
    }
}

/// No currency has two pools.
spec fn pools_distinct(pools: Seq<Pool>) -> bool {
    forall|i: int, j: int|
        0 <= i < j < pools.len() ==> (#[trigger] pools[i]).currency != (#[trigger] pools[j]).currency
}

/// The running total of each currency's pool.
pub struct PoolTotals {
    pools: Vec<Pool>,
}

impl View for PoolTotals {
    type V = PoolMap;

    closed spec fn view(&self) -> PoolMap {
        Map::total(|currency: CurrencyId| pooled(self.pools@, currency))
    }
}

impl PoolTotals {
    /// Every currency has one total at most.
    pub closed spec fn wf(&self) -> bool {
        pools_distinct(self.pools@)
    }

    /// Totals in which nothing is locked.
    pub fn new() -> (totals: PoolTotals)
        ensures
            totals.wf(),
            totals@ == no_pools(),
    {
        let totals = PoolTotals { pools: Vec::new() };
        assert(totals@ =~= no_pools());
        totals
    }

    /// The place of the pool of `currency`, if there is one.
    fn slot_of(&self, currency: CurrencyId) -> (slot: Option<usize>)
        requires
            self.wf(),
        ensures
            match slot {
                Some(i) => is_pool(self.pools@, currency, i as int) && self.pools@[i as int].total == self@[currency],
                None => self@[currency] == 0 && forall|i: int| !is_pool(self.pools@, currency, i),
            },
    {
        let mut i: usize = 0;
        while i < self.pools.len()
            invariant
                self.wf(),
                i <= self.pools.len(),
                forall|k: int| 0 <= k < i ==> !is_pool(self.pools@, currency, k),
            decreases self.pools.len() - i,
        {
            if self.pools[i].currency == currency {
                proof {
                    assert(is_pool(self.pools@, currency, i as int));
                    let k = choose|k: int| is_pool(self.pools@, currency, k);
                    assert(k == i);
                }
                return Some(i);
            }
            i += 1;
        }
        None
    }

    /// What is locked in `currency`.
    pub fn total_of(&self, currency: CurrencyId) -> (total: Balance)
        requires
            self.wf(),
        ensures
            total == self@[currency],
    {
        match self.slot_of(currency) {
            Some(i) => self.pools[i].total,
            None => 0,
        }
    }

    /// Records that `total` is locked in `currency`.
    pub fn set(&mut self, currency: CurrencyId, total: Balance)
        requires
            old(self).wf(),
        ensures
            final(self).wf(),
            final(self)@ == old(self)@.insert(currency, total as nat),
    {
        let ghost before = self.pools@;
        let slot = self.slot_of(currency);
        match slot {
            Some(i) => {
                self.pools[i] = Pool { currency, total };
            },
            None => {
                self.pools.push(Pool { currency, total });
            },
        }
        proof {
            let after = self.pools@;
            let at: int = match slot {
                Some(i) => i as int,
                None => before.len() as int,
            };
            assert(is_pool(after, currency, at));
            assert forall|i: int| 0 <= i < after.len() && i != at implies #[trigger] after[i] == before[i]
                && !is_pool(before, currency, i) by {
                if is_pool(before, currency, i) && slot.is_some() {
                    assert(is_pool(before, currency, at));
                    assert(before[i].currency == before[at].currency);
                }
            }
            assert forall|i: int, j: int| 0 <= i < j < after.len() implies (#[trigger] after[i]).currency != (
            #[trigger] after[j]).currency by {
                if i != at && j != at {
                    assert(before[i].currency == after[i].currency);
                    assert(before[j].currency == after[j].currency);
                } else if i == at {
                    assert(!is_pool(before, currency, j));
                } else {
                    assert(!is_pool(before, currency, i));
                }
            }
            assert forall|c: CurrencyId, k: int| c != currency implies (is_pool(after, c, k) <==> is_pool(
                before,
                c,
                k,
            )) by {
            }
            assert forall|c: CurrencyId| #[trigger] self@[c] == old(self)@.insert(currency, total as nat)[c] by {
                if c == currency {
                    let k = choose|k: int| is_pool(after, c, k);
                    assert(k == at);
                } else if exists|k: int| is_pool(before, c, k) {
                    let k0 = choose|k: int| is_pool(before, c, k);
                    assert(is_pool(after, c, k0));
                    let k1 = choose|k: int| is_pool(after, c, k);
                    assert(is_pool(before, c, k1));
                    assert(k0 == k1);
                } else {
                    assert(forall|k: int| !is_pool(after, c, k));
                }
            }
            assert(self@ =~= old(self)@.insert(currency, total as nat));
        }
    }
}

} // verus!
