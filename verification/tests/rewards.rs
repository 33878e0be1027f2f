use tidefi_stake::{Balances, BlockNumber, CurrencyId, Event, Params, Percent, Staking, TierTable};

const DAY: BlockNumber = 14400;
const WRAPPED: CurrencyId = CurrencyId::Wrapped(2);

fn ledger() -> (Staking, Balances) {
    let params = Params {
        min_stake: 1,
        max_stakes_per_account: 10,
        unstake_fee: Percent::from_parts(1),
        forced_unlock_delay: 256,
        queue_capacity: 10,
        finalize_cost: 0,
    };
    let mut ledger = Balances::new();
    for account in 1..=5 {
        ledger.credit(account, CurrencyId::Tifi, 1_000_000_000).unwrap();
        ledger.credit(account, WRAPPED, 1_000_000_000).unwrap();
    }
    (Staking::new(TierTable::standard(), params), ledger)
}

fn principals(staking: &Staking, accounts: &[u64]) -> Vec<u128> {
    accounts.iter().flat_map(|a| staking.stakes_of(*a)).map(|r| r.principal).collect()
}

#[test]
fn a_session_without_fees_changes_nothing() {
    let (mut staking, mut ledger) = ledger();
    staking.stake(&mut ledger, 0, 1, CurrencyId::Tifi, 1_000, 150).unwrap();
    let events = staking.events();
    assert_eq!(staking.distribute(Vec::new()), Ok(()));
    assert_eq!(staking.distribute(vec![(CurrencyId::Tifi, 0)]), Ok(()));
    assert_eq!(staking.distribute(vec![(WRAPPED, 1_000_000)]), Ok(()));
    assert_eq!(principals(&staking, &[1]), vec![1_000]);
    assert_eq!(staking.events(), events);
}

#[test]
fn fees_without_stakes_change_nothing() {
    let (mut staking, _ledger) = ledger();
    assert_eq!(staking.distribute(vec![(CurrencyId::Tifi, 1_000_000), (WRAPPED, 5)]), Ok(()));
    assert_eq!(staking.pool_of(CurrencyId::Tifi), 0);
    assert!(staking.events().is_empty());
}

#[test]
fn a_stake_earns_at_the_rate_of_its_own_tier() {
    let (mut staking, mut ledger) = ledger();
    // equal stakes in the tiers of 1, 2 and 5 percent
    staking.stake(&mut ledger, 0, 1, CurrencyId::Tifi, 1_000, 150).unwrap();
    staking.stake(&mut ledger, 0, 2, CurrencyId::Tifi, 1_000, 15 * DAY).unwrap();
    staking.stake(&mut ledger, 0, 3, CurrencyId::Tifi, 1_000, 90 * DAY).unwrap();
    assert_eq!(staking.distribute(vec![(CurrencyId::Tifi, 300_000)]), Ok(()));
    // a third each of 3,000, of 6,000 and of 15,000
    assert_eq!(principals(&staking, &[1, 2, 3]), vec![2_000, 3_000, 6_000]);
    assert_eq!(staking.pool_of(CurrencyId::Tifi), 3_000);
}

#[test]
fn a_stake_keeps_the_rate_it_was_made_with() {
    let (mut staking, mut ledger) = ledger();
    staking.stake(&mut ledger, 0, 1, CurrencyId::Tifi, 1_000, 150).unwrap();
    let tiers = vec![tidefi_stake::DurationTier { duration: 150, reward_rate: Percent::from_parts(50) }];
    staking.set_tiers(TierTable::new(tiers).unwrap());
    staking.stake(&mut ledger, 0, 2, CurrencyId::Tifi, 1_000, 150).unwrap();
    assert_eq!(staking.stakes_of(1)[0].reward_rate, Percent::from_parts(1));
    assert_eq!(staking.stakes_of(2)[0].reward_rate, Percent::from_parts(50));
    assert_eq!(staking.distribute(vec![(CurrencyId::Tifi, 10_000)]), Ok(()));
    // half of 100 and half of 5,000
    assert_eq!(principals(&staking, &[1, 2]), vec![1_050, 3_500]);
    // a duration that is no longer on offer is refused
    assert!(staking.stake(&mut ledger, 0, 3, CurrencyId::Tifi, 1_000, 15 * DAY).is_err());
}

#[test]
fn rewards_go_by_the_initial_balance_not_by_the_principal() {
    let (mut staking, mut ledger) = ledger();
    staking.stake(&mut ledger, 0, 1, CurrencyId::Tifi, 1_000, 15 * DAY).unwrap();
    assert_eq!(staking.distribute(vec![(CurrencyId::Tifi, 100_000)]), Ok(()));
    assert_eq!(principals(&staking, &[1]), vec![3_000]);
    staking.stake(&mut ledger, 0, 2, CurrencyId::Tifi, 1_000, 15 * DAY).unwrap();
    assert_eq!(staking.pool_of(CurrencyId::Tifi), 2_000);
    assert_eq!(staking.distribute(vec![(CurrencyId::Tifi, 100_000)]), Ok(()));
    assert_eq!(principals(&staking, &[1, 2]), vec![4_000, 2_000]);
}

#[test]
fn each_currency_is_shared_out_among_its_own_stakes() {
    let (mut staking, mut ledger) = ledger();
    staking.stake(&mut ledger, 0, 1, CurrencyId::Tifi, 1_000, 15 * DAY).unwrap();
    staking.stake(&mut ledger, 0, 2, WRAPPED, 3_000, 15 * DAY).unwrap();
    staking.stake(&mut ledger, 0, 3, WRAPPED, 1_000, 15 * DAY).unwrap();
    staking.stake(&mut ledger, 0, 4, CurrencyId::Wrapped(3), 1_000, 15 * DAY).unwrap_err();
    assert_eq!(staking.distribute(vec![(WRAPPED, 100_000), (CurrencyId::Tifi, 50_000)]), Ok(()));
    assert_eq!(principals(&staking, &[1, 2, 3]), vec![2_000, 4_500, 1_500]);
    // a currency may be named twice in one session
    assert_eq!(staking.distribute(vec![(WRAPPED, 100_000), (WRAPPED, 100_000)]), Ok(()));
    assert_eq!(principals(&staking, &[1, 2, 3]), vec![2_000, 7_500, 2_500]);
}

#[test]
fn rewards_are_rounded_down_and_stay_within_the_reward_pool() {
    let (mut staking, mut ledger) = ledger();
    for account in 1..=3 {
        staking.stake(&mut ledger, 0, account, CurrencyId::Tifi, 1_000, 15 * DAY).unwrap();
    }
    // 2% of 5,000 is 100, a third of which is 33.3
    assert_eq!(staking.distribute(vec![(CurrencyId::Tifi, 5_000)]), Ok(()));
    assert_eq!(principals(&staking, &[1, 2, 3]), vec![1_033, 1_033, 1_033]);
    // 2% of 74 is 1.48, which is 1, a third of which is nothing
    assert_eq!(staking.distribute(vec![(CurrencyId::Tifi, 74)]), Ok(()));
    assert_eq!(principals(&staking, &[1, 2, 3]), vec![1_033, 1_033, 1_033]);
}

#[test]
fn rewards_go_by_the_ratio_of_the_initial_balances() {
    let (mut staking, mut ledger) = ledger();
    let stakes: [u128; 4] = [1_000, 2_000, 3_500, 1];
    for (i, amount) in stakes.iter().enumerate() {
        staking.stake(&mut ledger, 0, i as u64 + 1, CurrencyId::Tifi, *amount, 15 * DAY).unwrap();
    }
    assert_eq!(staking.distribute(vec![(CurrencyId::Tifi, 1_234_567)]), Ok(()));
    let after = principals(&staking, &[1, 2, 3, 4]);
    // 2% of 1,234,567 is 24,691.34, which is 24,691; the pool holds 6,501
    assert_eq!(after, vec![1_000 + 3_798, 2_000 + 7_596, 3_500 + 13_293, 1 + 3]);
    let mut sum = 0;
    for i in 0..4 {
        for j in 0..4 {
            let ri = (after[i] - stakes[i]) as i128;
            let rj = (after[j] - stakes[j]) as i128;
            let d = ri * stakes[j] as i128 - rj * stakes[i] as i128;
            assert!(-(stakes[j] as i128) < d && d < stakes[i] as i128);
        }
        sum += after[i] - stakes[i];
    }
    assert!(sum <= 24_691);
}

#[test]
fn a_principal_that_cannot_hold_its_reward_is_passed_over() {
    let (mut staking, mut ledger) = ledger();
    ledger.credit(1, WRAPPED, u128::MAX - 1_000_000_000).unwrap();
    let big = staking.stake(&mut ledger, 0, 1, WRAPPED, u128::MAX - 5, 15 * DAY).unwrap();
    staking.stake(&mut ledger, 0, 2, WRAPPED, 5, 15 * DAY).unwrap();
    staking.stake(&mut ledger, 0, 3, CurrencyId::Tifi, 1_000, 15 * DAY).unwrap();
    staking.take_events();
    // 2% of u128::MAX is far more than the five units that the first principal has room for
    assert_eq!(staking.distribute(vec![(WRAPPED, u128::MAX), (CurrencyId::Tifi, 50_000)]), Ok(()));
    assert_eq!(staking.events(), vec![Event::RewardSkipped { account: 1, unique_id: big }]);
    let pool = Percent::from_parts(2).share_of(u128::MAX);
    let small = tidefi_stake::share::proportional_share(pool, 5, u128::MAX);
    assert_eq!(small, 0);
    // the others are rewarded all the same
    assert_eq!(principals(&staking, &[1, 2, 3]), vec![u128::MAX - 5, 5, 2_000]);
    // a reward that fits is credited
    assert_eq!(staking.distribute(vec![(WRAPPED, 250)]), Ok(()));
    assert_eq!(principals(&staking, &[1, 2]), vec![u128::MAX - 1, 5]);
}

#[test]
fn rewards_leave_pools_balances_and_the_queue_alone() {
    let (mut staking, mut ledger) = ledger();
    let id = staking.stake(&mut ledger, 0, 1, CurrencyId::Tifi, 1_000, 15 * DAY).unwrap();
    staking.stake(&mut ledger, 0, 2, CurrencyId::Tifi, 3_000, 15 * DAY).unwrap();
    staking.unstake(&mut ledger, 10, 1, id, true).unwrap();
    let queue = staking.unstake_queue();
    assert_eq!(staking.distribute(vec![(CurrencyId::Tifi, 200_000)]), Ok(()));
    assert_eq!(staking.pool_of(CurrencyId::Tifi), 4_000);
    assert_eq!(staking.unstake_queue(), queue);
    assert_eq!(ledger.balance_of(1, CurrencyId::Tifi), 1_000_000_000 - 1_000 - 10);
    assert_eq!(ledger.balance_of(2, CurrencyId::Tifi), 1_000_000_000 - 3_000);
    // a stake that waits in the queue still earns
    assert_eq!(principals(&staking, &[1, 2]), vec![2_000, 6_000]);
    for record in staking.stakes_of(1).iter().chain(staking.stakes_of(2).iter()) {
        assert!(record.principal >= record.initial_balance);
    }
}

#[test]
fn the_stakes_of_one_rate_earn_no_more_than_that_rate_of_the_fee() {
    let (mut staking, mut ledger) = ledger();
    // three stakes at 2 percent and two at 5, of uneven sizes
    let stakes: [(u64, u128, BlockNumber); 5] =
        [(1, 1_003, 15 * DAY), (2, 777, 15 * DAY), (3, 12_345, 90 * DAY), (4, 1, 15 * DAY), (5, 9_999, 90 * DAY)];
    for (account, amount, duration) in stakes {
        staking.stake(&mut ledger, 0, account, CurrencyId::Tifi, amount, duration).unwrap();
    }
    for fee in [1u128, 49, 50, 51, 99, 100, 101, 12_345, 1_000_003, 999_999_999_999] {
        let before = principals(&staking, &[1, 2, 3, 4, 5]);
        assert_eq!(staking.distribute(vec![(CurrencyId::Tifi, fee)]), Ok(()));
        let after = principals(&staking, &[1, 2, 3, 4, 5]);
        let earned: Vec<u128> = before.iter().zip(after.iter()).map(|(b, a)| a - b).collect();
        assert!(earned[0] + earned[1] + earned[3] <= Percent::from_parts(2).share_of(fee));
        assert!(earned[2] + earned[4] <= Percent::from_parts(5).share_of(fee));
    }
}
