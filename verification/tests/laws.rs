use tidefi_stake::{Balances, BlockNumber, CurrencyId, Params, Percent, StakeId, Staking, TierTable};

const DAY: BlockNumber = 14400;
const ACCOUNTS: [u64; 4] = [1, 2, 3, 4];
const CURRENCIES: [CurrencyId; 3] = [CurrencyId::Tifi, CurrencyId::Wrapped(1), CurrencyId::Wrapped(2)];
const DURATIONS: [BlockNumber; 5] = [150, 15 * DAY, 30 * DAY, 60 * DAY, 90 * DAY];

/// A source of numbers that is the same on every run.
struct Sequence(u64);

impl Sequence {
    fn next(&mut self, below: u64) -> u64 {
        self.0 = self.0.wrapping_mul(6_364_136_223_846_793_005).wrapping_add(1_442_695_040_888_963_407);
        (self.0 >> 33) % below
    }
}

fn world(finalize_cost: u64) -> (Staking, Balances) {
    let params = Params {
        min_stake: 100,
        max_stakes_per_account: 6,
        unstake_fee: Percent::from_parts(3),
        forced_unlock_delay: 500,
        queue_capacity: 5,
        finalize_cost,
    };
    let mut ledger = Balances::new();
    for account in ACCOUNTS {
        for currency in CURRENCIES {
            ledger.credit(account, currency, 1_000_000).unwrap();
        }
    }
    (Staking::new(TierTable::standard(), params), ledger)
}

/// What an account owns of a currency: what it can spend and what its stakes
/// would pay.
fn holdings(staking: &Staking, ledger: &Balances, account: u64, currency: CurrencyId) -> u128 {
    let locked: u128 =
        staking.stakes_of(account).iter().filter(|r| r.currency == currency).map(|r| r.principal).sum();
    ledger.balance_of(account, currency) + locked
}

fn all_holdings(staking: &Staking, ledger: &Balances) -> Vec<u128> {
    let mut all = Vec::new();
    for account in ACCOUNTS {
        for currency in CURRENCIES {
            all.push(holdings(staking, ledger, account, currency));
        }
    }
    all
}

fn check_invariants(staking: &Staking) {
    let mut names: Vec<StakeId> = Vec::new();
    for currency in CURRENCIES {
        let mut sum = 0;
        for account in ACCOUNTS {
            for record in staking.stakes_of(account) {
                if record.currency == currency {
                    sum += record.initial_balance;
                }
            }
        }
        assert_eq!(staking.pool_of(currency), sum);
    }
    for account in ACCOUNTS {
        let stakes = staking.stakes_of(account);
        assert!(stakes.len() <= 6);
        for record in stakes {
            assert!(record.principal >= record.initial_balance);
            assert_eq!(record.account, account);
            assert_eq!(record.unique_id.account, account);
            assert_eq!(record.unique_id.currency, record.currency);
            assert_eq!(record.unique_id.block, record.start_block);
            assert!(!names.contains(&record.unique_id));
            names.push(record.unique_id);
        }
    }
    let queue = staking.unstake_queue();
    assert!(queue.len() <= 5);
    assert_eq!(queue.len(), staking.queue_length());
    for (i, entry) in queue.iter().enumerate() {
        assert!(names.contains(&entry.unique_id));
        assert_eq!(entry.account, entry.unique_id.account);
        if i > 0 {
            assert!(queue[i - 1].unlock_block <= entry.unlock_block);
        }
        for other in &queue[..i] {
            assert_ne!(other.unique_id, entry.unique_id);
        }
    }
}

#[test]
fn the_invariants_hold_through_a_long_run_of_calls() {
    let (mut staking, mut ledger) = world(3);
    let mut seq = Sequence(7);
    let mut now: BlockNumber = 0;
    let mut made: Vec<StakeId> = Vec::new();
    check_invariants(&staking);
    for _ in 0..600 {
        now += seq.next(400) as BlockNumber;
        let account = ACCOUNTS[seq.next(4) as usize];
        let currency = CURRENCIES[seq.next(3) as usize];
        match seq.next(5) {
            0 | 1 => {
                let amount = 50 + seq.next(5_000) as u128;
                let duration = if seq.next(8) == 0 { 999 } else { DURATIONS[seq.next(2) as usize] };
                if let Ok(id) = staking.stake(&mut ledger, now, account, currency, amount, duration) {
                    made.push(id);
                }
            },
            2 => {
                if !made.is_empty() {
                    let id = made[seq.next(made.len() as u64) as usize];
                    let _ = staking.unstake(&mut ledger, now, id.account, id, seq.next(2) == 0);
                }
            },
            3 => {
                let fee = seq.next(1_000_000) as u128;
                assert_eq!(staking.distribute(vec![(currency, fee), (CURRENCIES[0], fee / 3)]), Ok(()));
            },
            _ => {
                let budget = seq.next(10);
                let left = staking.drain(&mut ledger, now, budget);
                assert!(left <= budget);
            },
        }
        check_invariants(&staking);
    }
    assert!(made.len() > 50);
}

#[test]
fn a_stake_moves_its_amount_and_nothing_else() {
    let (mut staking, mut ledger) = world(0);
    staking.stake(&mut ledger, 0, 2, CurrencyId::Tifi, 700, 150).unwrap();
    let before = all_holdings(&staking, &ledger);
    let spendable = ledger.balance_of(1, CurrencyId::Tifi);
    let other = ledger.balance_of(1, CurrencyId::Wrapped(1));
    staking.stake(&mut ledger, 0, 1, CurrencyId::Tifi, 12_345, 150).unwrap();
    assert_eq!(ledger.balance_of(1, CurrencyId::Tifi), spendable - 12_345);
    assert_eq!(ledger.balance_of(1, CurrencyId::Wrapped(1)), other);
    assert_eq!(ledger.balance_of(2, CurrencyId::Tifi), 1_000_000 - 700);
    assert_eq!(staking.pool_of(CurrencyId::Tifi), 700 + 12_345);
    assert_eq!(all_holdings(&staking, &ledger), before);
}

#[test]
fn a_matured_unstake_pays_the_principal_of_that_moment() {
    let (mut staking, mut ledger) = world(0);
    let id = staking.stake(&mut ledger, 0, 1, CurrencyId::Tifi, 10_000, 150).unwrap();
    staking.stake(&mut ledger, 0, 2, CurrencyId::Tifi, 30_000, 150).unwrap();
    assert_eq!(staking.distribute(vec![(CurrencyId::Tifi, 1_000_000)]), Ok(()));
    // a quarter of one percent of the fee
    assert_eq!(staking.stakes_of(1)[0].principal, 12_500);
    let before = all_holdings(&staking, &ledger);
    let spendable = ledger.balance_of(1, CurrencyId::Tifi);
    assert_eq!(staking.unstake(&mut ledger, 150, 1, id, true), Ok(()));
    assert_eq!(ledger.balance_of(1, CurrencyId::Tifi), spendable + 12_500);
    assert_eq!(staking.pool_of(CurrencyId::Tifi), 30_000);
    assert_eq!(all_holdings(&staking, &ledger), before);
}

#[test]
fn an_early_unstake_costs_the_fee_once() {
    let (mut staking, mut ledger) = world(0);
    let id = staking.stake(&mut ledger, 0, 1, CurrencyId::Wrapped(1), 10_000, 15 * DAY).unwrap();
    let start = all_holdings(&staking, &ledger);
    assert_eq!(staking.unstake(&mut ledger, 100, 1, id, true), Ok(()));
    // three percent of what was locked
    let mut expected = start.clone();
    expected[1] -= 300;
    assert_eq!(all_holdings(&staking, &ledger), expected);
    assert_eq!(staking.drain(&mut ledger, 599, 0), 0);
    assert_eq!(all_holdings(&staking, &ledger), expected);
    assert_eq!(staking.drain(&mut ledger, 600, 0), 0);
    assert_eq!(staking.queue_length(), 0);
    assert_eq!(all_holdings(&staking, &ledger), expected);
    assert_eq!(ledger.balance_of(1, CurrencyId::Wrapped(1)), 1_000_000 - 300);
}

#[test]
fn a_maintenance_step_leaves_everybody_owning_the_same() {
    let (mut staking, mut ledger) = world(1);
    let mut queued = 0;
    for (i, account) in ACCOUNTS.iter().enumerate() {
        let amount = 1_000 * (i as u128 + 1);
        let id = staking.stake(&mut ledger, 0, *account, CURRENCIES[i % 3], amount, 30 * DAY).unwrap();
        staking.unstake(&mut ledger, 100 * i as u32, *account, id, true).unwrap();
        queued += 1;
    }
    assert_eq!(staking.distribute(vec![(CurrencyId::Tifi, 99_999), (CurrencyId::Wrapped(1), 12_345)]), Ok(()));
    let before = all_holdings(&staking, &ledger);
    assert_eq!(staking.queue_length(), queued);
    // budget for one payout, then for the rest
    assert_eq!(staking.drain(&mut ledger, 10_000, 1), 0);
    assert_eq!(staking.queue_length(), queued - 1);
    assert_eq!(all_holdings(&staking, &ledger), before);
    assert_eq!(staking.drain(&mut ledger, 10_000, 100), 97);
    assert_eq!(staking.queue_length(), 0);
    assert_eq!(all_holdings(&staking, &ledger), before);
    for account in ACCOUNTS {
        assert!(staking.stakes_of(account).is_empty());
    }
}

#[test]
fn a_session_hands_out_no_more_than_its_fee() {
    let (mut staking, mut ledger) = world(0);
    let mut seq = Sequence(11);
    for account in ACCOUNTS {
        for _ in 0..3 {
            let amount = 100 + seq.next(50_000) as u128;
            let duration = DURATIONS[seq.next(5) as usize];
            staking.stake(&mut ledger, 0, account, CurrencyId::Tifi, amount, duration).unwrap();
        }
    }
    for _ in 0..50 {
        let fee = seq.next(10_000_000) as u128;
        let before = all_holdings(&staking, &ledger);
        assert_eq!(staking.distribute(vec![(CurrencyId::Tifi, fee)]), Ok(()));
        let after = all_holdings(&staking, &ledger);
        let mut handed_out = 0;
        for (b, a) in before.iter().zip(after.iter()) {
            assert!(a >= b);
            handed_out += a - b;
        }
        assert!(handed_out <= fee);
        // the highest rate on offer is five percent
        assert!(handed_out <= Percent::from_parts(5).share_of(fee));
    }
}
