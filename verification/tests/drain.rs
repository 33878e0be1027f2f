use tidefi_stake::{
    Balances, BlockNumber, CurrencyId, Event, Params, Percent, StakeId, Staking, TierTable, UnstakeQueueEntry,
};

const DAY: BlockNumber = 14400;

fn ledger_with(finalize_cost: u64) -> (Staking, Balances) {
    let params = Params {
        min_stake: 1_000,
        max_stakes_per_account: 10,
        unstake_fee: Percent::from_parts(1),
        forced_unlock_delay: 256,
        queue_capacity: 10,
        finalize_cost,
    };
    let mut ledger = Balances::new();
    for account in 1..=5 {
        ledger.credit(account, CurrencyId::Tifi, 1_000_000).unwrap();
    }
    (Staking::new(TierTable::standard(), params), ledger)
}

/// Stakes 10,000 for thirty days at block 0 and asks for the early
/// withdrawal at block `at`.
fn queue_one(staking: &mut Staking, ledger: &mut Balances, account: u64, at: BlockNumber) -> StakeId {
    let id = staking.stake(ledger, 0, account, CurrencyId::Tifi, 10_000, 30 * DAY).unwrap();
    staking.unstake(ledger, at, account, id, true).unwrap();
    id
}

#[test]
fn drain_of_an_empty_queue_changes_nothing() {
    let (mut staking, mut ledger) = ledger_with(10);
    staking.stake(&mut ledger, 0, 1, CurrencyId::Tifi, 10_000, 150).unwrap();
    let events = staking.events();
    for budget in [0, 1, 9, 10, 1_000, u64::MAX] {
        assert_eq!(staking.drain(&mut ledger, 1_000_000, budget), budget);
    }
    assert_eq!(staking.events(), events);
    assert_eq!(staking.stakes_of(1).len(), 1);
    assert_eq!(staking.pool_of(CurrencyId::Tifi), 10_000);
    assert_eq!(ledger.balance_of(1, CurrencyId::Tifi), 990_000);
}

#[test]
fn drain_leaves_what_is_not_yet_due() {
    let (mut staking, mut ledger) = ledger_with(10);
    let id = queue_one(&mut staking, &mut ledger, 1, 1_000);
    let queue = staking.unstake_queue();
    assert_eq!(queue, vec![UnstakeQueueEntry { unique_id: id, account: 1, unlock_block: 1_256, fee_charged: 100 }]);
    let events = staking.events();
    let balance = ledger.balance_of(1, CurrencyId::Tifi);
    for now in [0, 1_000, 1_255] {
        assert_eq!(staking.drain(&mut ledger, now, 500), 500);
        assert_eq!(staking.unstake_queue(), queue);
        assert_eq!(staking.stakes_of(1).len(), 1);
        assert_eq!(staking.events(), events);
        assert_eq!(ledger.balance_of(1, CurrencyId::Tifi), balance);
    }
    // the unlock block itself is due
    assert_eq!(staking.drain(&mut ledger, 1_256, 500), 490);
    assert_eq!(staking.queue_length(), 0);
}

#[test]
fn drain_pays_the_principal_and_ends_the_stake() {
    let (mut staking, mut ledger) = ledger_with(10);
    let id = queue_one(&mut staking, &mut ledger, 1, 1_000);
    assert_eq!(ledger.balance_of(1, CurrencyId::Tifi), 1_000_000 - 10_000 - 100);
    staking.take_events();
    assert_eq!(staking.drain(&mut ledger, 2_000, 100), 90);
    // the fee was paid when the withdrawal was asked for, and only then
    assert_eq!(ledger.balance_of(1, CurrencyId::Tifi), 1_000_000 - 100);
    assert_eq!(staking.pool_of(CurrencyId::Tifi), 0);
    assert!(staking.stakes_of(1).is_empty());
    assert_eq!(staking.queue_length(), 0);
    assert_eq!(
        staking.events(),
        vec![Event::Unstaked {
            account: 1,
            unique_id: id,
            currency: CurrencyId::Tifi,
            initial_balance: 10_000,
            principal: 10_000,
        }]
    );
}

#[test]
fn drain_pays_the_rewards_earned_while_waiting() {
    let (mut staking, mut ledger) = ledger_with(10);
    queue_one(&mut staking, &mut ledger, 1, 1_000);
    // 3% of 50,000 go to the only stake
    assert_eq!(staking.distribute(vec![(CurrencyId::Tifi, 50_000)]), Ok(()));
    assert_eq!(staking.stakes_of(1)[0].principal, 11_500);
    assert_eq!(staking.drain(&mut ledger, 1_256, 10), 0);
    assert_eq!(ledger.balance_of(1, CurrencyId::Tifi), 1_000_000 - 100 + 1_500);
    assert_eq!(staking.pool_of(CurrencyId::Tifi), 0);
}

#[test]
fn drain_stops_when_the_budget_is_spent() {
    let (mut staking, mut ledger) = ledger_with(10);
    let first = queue_one(&mut staking, &mut ledger, 1, 100);
    let second = queue_one(&mut staking, &mut ledger, 2, 200);
    let third = queue_one(&mut staking, &mut ledger, 3, 300);
    // less than one payout costs
    assert_eq!(staking.drain(&mut ledger, 10_000, 9), 9);
    assert_eq!(staking.queue_length(), 3);
    // two payouts and a rest
    assert_eq!(staking.drain(&mut ledger, 10_000, 25), 5);
    let left: Vec<StakeId> = staking.unstake_queue().iter().map(|e| e.unique_id).collect();
    assert_eq!(left, vec![third]);
    assert!(staking.stakes_of(1).is_empty());
    assert!(staking.stakes_of(2).is_empty());
    assert_eq!(staking.stakes_of(3).len(), 1);
    assert_eq!(staking.pool_of(CurrencyId::Tifi), 10_000);
    // exactly one payout
    assert_eq!(staking.drain(&mut ledger, 10_000, 10), 0);
    assert_eq!(staking.queue_length(), 0);
    let _ = (first, second);
}

#[test]
fn drain_goes_by_unlock_block_whatever_the_order_of_the_requests() {
    let (mut staking, mut ledger) = ledger_with(1);
    let late = queue_one(&mut staking, &mut ledger, 1, 5_000);
    let early = queue_one(&mut staking, &mut ledger, 2, 1_000);
    let middle = queue_one(&mut staking, &mut ledger, 3, 3_000);
    let order: Vec<StakeId> = staking.unstake_queue().iter().map(|e| e.unique_id).collect();
    assert_eq!(order, vec![early, middle, late]);
    let blocks: Vec<BlockNumber> = staking.unstake_queue().iter().map(|e| e.unlock_block).collect();
    assert_eq!(blocks, vec![1_256, 3_256, 5_256]);
    assert_eq!(staking.drain(&mut ledger, 3_256, 100), 98);
    let order: Vec<StakeId> = staking.unstake_queue().iter().map(|e| e.unique_id).collect();
    assert_eq!(order, vec![late]);
}

#[test]
fn drain_takes_equal_unlock_blocks_in_the_order_of_the_requests() {
    let (mut staking, mut ledger) = ledger_with(1);
    let a = queue_one(&mut staking, &mut ledger, 1, 1_000);
    let b = queue_one(&mut staking, &mut ledger, 2, 1_000);
    let before = queue_one(&mut staking, &mut ledger, 3, 999);
    let c = queue_one(&mut staking, &mut ledger, 4, 1_000);
    let order: Vec<StakeId> = staking.unstake_queue().iter().map(|e| e.unique_id).collect();
    assert_eq!(order, vec![before, a, b, c]);
    staking.take_events();
    // the budget covers two payouts
    assert_eq!(staking.drain(&mut ledger, 1_256, 2), 0);
    let paid: Vec<u64> = staking
        .events()
        .iter()
        .map(|e| match e {
            Event::Unstaked { account, .. } => *account,
            _ => 0,
        })
        .collect();
    assert_eq!(paid, vec![3, 1]);
    assert_eq!(staking.drain(&mut ledger, 1_256, 1), 0);
    let order: Vec<StakeId> = staking.unstake_queue().iter().map(|e| e.unique_id).collect();
    assert_eq!(order, vec![c]);
}

#[test]
fn drain_passes_over_a_payout_that_the_balance_cannot_hold() {
    let (mut staking, mut ledger) = ledger_with(10);
    let stuck = queue_one(&mut staking, &mut ledger, 1, 100);
    let free = queue_one(&mut staking, &mut ledger, 2, 200);
    // the first account's balance can hold 9,999 more, the principal is 10,000
    let balance = ledger.balance_of(1, CurrencyId::Tifi);
    ledger.credit(1, CurrencyId::Tifi, u128::MAX - balance - 9_999).unwrap();
    staking.take_events();
    // one payout is made and paid for; the entry that is passed over costs nothing
    assert_eq!(staking.drain(&mut ledger, 10_000, 100), 90);
    assert_eq!(
        staking.events(),
        vec![
            Event::UnstakeSkipped { account: 1, unique_id: stuck },
            Event::Unstaked {
                account: 2,
                unique_id: free,
                currency: CurrencyId::Tifi,
                initial_balance: 10_000,
                principal: 10_000,
            },
        ]
    );
    assert_eq!(staking.queue_length(), 1);
    assert_eq!(staking.unstake_queue()[0].unique_id, stuck);
    assert_eq!(staking.stakes_of(1).len(), 1);
    assert_eq!(staking.pool_of(CurrencyId::Tifi), 10_000);
    assert_eq!(ledger.balance_of(1, CurrencyId::Tifi), u128::MAX - 9_999);
    // it is reported again for as long as it is stuck
    staking.take_events();
    assert_eq!(staking.drain(&mut ledger, 10_000, 100), 100);
    assert_eq!(staking.events(), vec![Event::UnstakeSkipped { account: 1, unique_id: stuck }]);
    // and paid out once the balance has room
    ledger.debit(1, CurrencyId::Tifi, 1).unwrap();
    assert_eq!(staking.drain(&mut ledger, 10_000, 100), 90);
    assert_eq!(staking.queue_length(), 0);
    assert_eq!(ledger.balance_of(1, CurrencyId::Tifi), u128::MAX);
}

#[test]
fn drain_at_no_cost_hands_the_budget_back() {
    let (mut staking, mut ledger) = ledger_with(0);
    queue_one(&mut staking, &mut ledger, 1, 100);
    queue_one(&mut staking, &mut ledger, 2, 100);
    assert_eq!(staking.drain(&mut ledger, 356, 0), 0);
    assert_eq!(staking.queue_length(), 0);
    queue_one(&mut staking, &mut ledger, 3, 100);
    assert_eq!(staking.drain(&mut ledger, 356, 77), 77);
    assert_eq!(staking.queue_length(), 0);
}
