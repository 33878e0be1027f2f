//! Spendable balances, by account and currency.
//!
//! The staking ledger moves funds in and out of a balance ledger that it does
//! not own. `Balances` is such a ledger, held in memory.

use vstd::prelude::*;
use crate::primitives::{max_balance, AccountId, Balance, CurrencyId, Error};

verus! {

/// What every account holds of every currency. An account that was never
/// credited holds nothing.
pub type BalanceMap = Map<(AccountId, CurrencyId), nat>;

/// `map` after `account` received `amount` of `currency`.
pub open spec fn credited(map: BalanceMap, account: AccountId, currency: CurrencyId, amount: nat) -> BalanceMap {
    map.insert((account, currency), map[(account, currency)] + amount)
}

/// `map` after `account` gave up `amount` of `currency`.
pub open spec fn debited(map: BalanceMap, account: AccountId, currency: CurrencyId, amount: nat) -> BalanceMap {
    map.insert((account, currency), (map[(account, currency)] - amount) as nat)
}

/// The holding of one account in one currency.
#[derive(Clone, Copy, Debug)]
struct Holding {
    account: AccountId,
    currency: CurrencyId,
    amount: Balance,
}

/// The holding at place `i` is that of `account` in `currency`.
spec fn is_slot(holdings: Seq<Holding>, account: AccountId, currency: CurrencyId, i: int) -> bool {
    0 <= i < holdings.len() && holdings[i].account == account && holdings[i].currency == currency
}

/// What the holdings say that `account` has of `currency`.
spec fn held(holdings: Seq<Holding>, account: AccountId, currency: CurrencyId) -> nat {
    if exists|i: int| is_slot(holdings, account, currency, i) {
        holdings[choose|i: int| is_slot(holdings, account, currency, i)].amount as nat
    } else {
        0
    }
}

/// No account has two holdings of one currency.
spec fn slots_distinct(holdings: Seq<Holding>) -> bool {
    forall|i: int, j: int|
        0 <= i < j < holdings.len() ==> !((#[trigger] holdings[i]).account == (#[trigger] holdings[j]).account
            && holdings[i].currency == holdings[j].currency)
}

/// A balance ledger in memory.
pub struct Balances {
    holdings: Vec<Holding>,
}

impl View for Balances {
    type V = BalanceMap;

    closed spec fn view(&self) -> BalanceMap {
        Map::total(|key: (AccountId, CurrencyId)| held(self.holdings@, key.0, key.1))
    }
}

impl Balances {
    /// Every account and currency has one holding at most.
    pub closed spec fn wf(&self) -> bool {
        slots_distinct(self.holdings@)
    }

    /// What `account` can spend of `currency`.
    pub open spec fn free(&self, account: AccountId, currency: CurrencyId) -> nat {
        self@[(account, currency)]
    }

    /// Every balance is known and fits a `Balance`.
    pub proof fn lemma_balances_bounded(&self, account: AccountId, currency: CurrencyId)
        ensures
            self@.dom().contains((account, currency)),
            self.free(account, currency) <= max_balance(),
    {
    }

    /// A ledger in which nobody holds anything.
    pub fn new() -> (ledger: Balances)
        ensures
            ledger.wf(),
            forall|account: AccountId, currency: CurrencyId| ledger.free(account, currency) == 0,
    {
        Balances { holdings: Vec::new() }
    }

    /// The place of the holding of `account` in `currency`, if there is one.
    fn slot_of(&self, account: AccountId, currency: CurrencyId) -> (slot: Option<usize>)
        requires
            self.wf(),
        ensures
            match slot {
                Some(i) => is_slot(self.holdings@, account, currency, i as int) && self.holdings@[i as int].amount
                    == self.free(account, currency),
                None => self.free(account, currency) == 0 && forall|i: int|
                    !is_slot(self.holdings@, account, currency, i),
            },
    {
        let mut i: usize = 0;
        while i < self.holdings.len()
            invariant
                self.wf(),
                i <= self.holdings.len(),
                forall|k: int| 0 <= k < i ==> !is_slot(self.holdings@, account, currency, k),
            decreases self.holdings.len() - i,
        {
            if self.holdings[i].account == account && self.holdings[i].currency == currency {
                proof {
                    assert(is_slot(self.holdings@, account, currency, i as int));
                    let k = choose|k: int| is_slot(self.holdings@, account, currency, k);
                    assert(k == i);
                }
                return Some(i);
            }
            i += 1;
        }
        None
    }

    /// What `account` can spend of `currency`.
    pub fn balance_of(&self, account: AccountId, currency: CurrencyId) -> (amount: Balance)
        requires
            self.wf(),
        ensures
            amount == self.free(account, currency),
    {
        match self.slot_of(account, currency) {
            Some(i) => self.holdings[i].amount,
            None => 0,
        }
    }

    /// Whether `amount` of `currency` can be added to what `account` holds
    /// without leaving the range of a balance.
    pub fn can_credit(&self, account: AccountId, currency: CurrencyId, amount: Balance) -> (fits: bool)
        requires
            self.wf(),
        ensures
            fits == (self.free(account, currency) + amount <= max_balance()),
    {
        let held: Balance = self.balance_of(account, currency);
        amount <= u128::MAX - held
    }

    /// Adds `amount` of `currency` to what `account` can spend. Fails, and
    /// changes nothing, if the balance would leave its range.
    pub fn credit(&mut self, account: AccountId, currency: CurrencyId, amount: Balance) -> (r: Result<(), Error>)
        requires
            old(self).wf(),
        ensures
            final(self).wf(),
            r.is_ok() <==> old(self).free(account, currency) + amount <= max_balance(),
            r.is_ok() ==> final(self)@ == credited(old(self)@, account, currency, amount as nat),
            r.is_err() ==> r == Err::<(), Error>(Error::ArithmeticOverflow) && final(self)@ == old(self)@,
    {
        let slot = self.slot_of(account, currency);
        let held: Balance = match slot {
            Some(i) => self.holdings[i].amount,
            None => 0,
        };
        if amount > u128::MAX - held {
            return Err(Error::ArithmeticOverflow);
        }
        self.store(slot, account, currency, held + amount);
        Ok(())
    }

    /// Takes `amount` of `currency` from what `account` can spend. Fails, and
    /// changes nothing, if the account holds less.
    pub fn debit(&mut self, account: AccountId, currency: CurrencyId, amount: Balance) -> (r: Result<(), Error>)
        requires
            old(self).wf(),
        ensures
            final(self).wf(),
            r.is_ok() <==> amount <= old(self).free(account, currency),
            r.is_ok() ==> final(self)@ == debited(old(self)@, account, currency, amount as nat),
            r.is_err() ==> r == Err::<(), Error>(Error::InsufficientFunds) && final(self)@ == old(self)@,
    {
        let slot = self.slot_of(account, currency);
        let held: Balance = match slot {
            Some(i) => self.holdings[i].amount,
            None => 0,
        };
        if amount > held {
            return Err(Error::InsufficientFunds);
        }
        self.store(slot, account, currency, held - amount);
        Ok(())
    }

    /// Sets what `account` holds of `currency`, at its place or at a new one.
    fn store(&mut self, slot: Option<usize>, account: AccountId, currency: CurrencyId, amount: Balance)
        requires
            old(self).wf(),
            match slot {
                Some(i) => is_slot(old(self).holdings@, account, currency, i as int),
                None => forall|i: int| !is_slot(old(self).holdings@, account, currency, i),
            },
        ensures
            final(self).wf(),
            final(self)@ == old(self)@.insert((account, currency), amount as nat),
    {
        let ghost before = self.holdings@;
        match slot {
            Some(i) => {
                self.holdings[i] = Holding { account, currency, amount };
            },
            None => {
                self.holdings.push(Holding { account, currency, amount });
            },
        }
        proof {
            let after = self.holdings@;
            let at: int = match slot {
                Some(i) => i as int,
                None => before.len() as int,
            };
            assert(is_slot(after, account, currency, at));
            assert forall|i: int| 0 <= i < after.len() && i != at implies #[trigger] after[i] == before[i]
                && !is_slot(before, account, currency, i) by {
                if is_slot(before, account, currency, i) && slot.is_some() {
                    assert(is_slot(before, account, currency, at));
                    assert(before[i].account == before[at].account);
                }
            }
            assert forall|i: int, j: int| 0 <= i < j < after.len() implies !((#[trigger] after[i]).account == (
            #[trigger] after[j]).account && after[i].currency == after[j].currency) by {
                if i != at && j != at {
                    assert(before[i].account == after[i].account);
                    assert(before[j].account == after[j].account);
                } else if i == at {
                    assert(!is_slot(before, account, currency, j));
                } else {
                    assert(!is_slot(before, account, currency, i));
                }
            }
            assert(slots_distinct(after));
            assert forall|a: AccountId, c: CurrencyId, k: int|
                !(a == account && c == currency) implies (is_slot(after, a, c, k) <==> is_slot(before, a, c, k)) by {
            }
            assert forall|key: (AccountId, CurrencyId)| #[trigger]
                self@[key] == old(self)@.insert((account, currency), amount as nat)[key] by {
                let (a, c) = key;
                if a == account && c == currency {
                    let k = choose|k: int| is_slot(after, a, c, k);
                    assert(k == at);
                } else if exists|k: int| is_slot(before, a, c, k) {
                    let k0 = choose|k: int| is_slot(before, a, c, k);
                    assert(is_slot(after, a, c, k0));
                    let k1 = choose|k: int| is_slot(after, a, c, k);
                    assert(is_slot(before, a, c, k1));
                    assert(k0 == k1);
                } else {
                    assert(forall|k: int| !is_slot(after, a, c, k));
                }
            }
            assert(self@ =~= old(self)@.insert((account, currency), amount as nat));
        }
    }
}

} // verus!
