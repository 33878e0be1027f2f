//! What holds of the ledger whatever is asked of it.
//!
//! The laws are stated over [`World`] and [`Call`]: of every world that calls
//! can lead to, or of one call in any valid world.

use vstd::prelude::*;
use crate::balances::BalanceMap;
use crate::percent::{lemma_percent_of_bounded, percent_of, Percent};
use crate::primitives::{max_balance, AccountId, Balance, BlockNumber, CurrencyId, Error, StakeId, Weight};
use crate::records::{
    due_len, has_record, is_pending, lemma_due_len, lemma_sum_bounded_by_two, lemma_sum_covers, lemma_sum_push,
    lemma_sum_remove, lemma_zero_sum, record_index, staked_total, stakes_held, sum_by, weight_in, Params,
    StakeRecord, UnstakeQueueEntry,
};
use crate::rewards::{principal_in, principal_total, reward_fits, reward_in, reward_of, reward_pool};
use crate::share::{lemma_share_error_below_one, lemma_share_monotonic, lemma_share_proportional};
use crate::state::{maturity, record_valid, StakingState};
use crate::tiers::{durations_distinct, standard_tiers, DurationTier};
use crate::world::{locked_in, Call, World};

verus! {

/// A ledger in which nothing was staked yet is valid.
pub proof fn lemma_initial_valid(tiers: Seq<DurationTier>, params: Params)
    requires
        durations_distinct(tiers),
    ensures
        StakingState::initial(tiers, params).valid(),
{
    let s = StakingState::initial(tiers, params);
    assert forall|account: AccountId| #[trigger] stakes_held(s.records, account) == 0 by {
    }
}

/// No call leads from a valid ledger to one that is not.
pub proof fn lemma_after_valid(w: World, call: Call)
    requires
        w.state.valid(),
    ensures
        w.after(call).state.valid(),
{
    match call {
        Call::Stake { now, account, currency, amount, duration } => {
            if w.state.stake_refusal(w.balances, account, currency, amount, duration).is_none() {
                w.state.lemma_staked_valid(w.balances, now, account, currency, amount, duration);
            }
        },
        Call::Unstake { now, account, stake_id, allow_early_with_deferral } => {
            if w.state.unstake_refusal(w.balances, now, account, stake_id, allow_early_with_deferral).is_none() {
                let k = record_index(w.state.records, stake_id);
                if now >= maturity(w.state.records[k]) {
                    w.state.lemma_released_valid(k);
                } else {
                    w.state.lemma_deferred_valid(now, k);
                }
            }
        },
        Call::Distribute { session_fees } => {
            w.state.lemma_distributed_valid(session_fees);
        },
        Call::Drain { now, budget } => {
            w.state.lemma_drained_valid(w.balances, now, budget, 0);
        },
        Call::SetTiers { tiers } => {
        },
        Call::TakeEvents => {
        },
        Call::Credit { account, currency, amount } => {
        },
        Call::Debit { account, currency, amount } => {
        },
        Call::MigrateToV1 { version } => {
            w.state.lemma_migrated_valid();
        },
    }
}

/// Every ledger that calls lead to from a valid one is valid.
pub proof fn lemma_after_all_valid(w: World, calls: Seq<Call>)
    requires
        w.state.valid(),
    ensures
        w.after_all(calls).state.valid(),
    decreases calls.len(),
{
    if calls.len() > 0 {
        lemma_after_all_valid(w, calls.drop_last());
        lemma_after_valid(w.after_all(calls.drop_last()), calls.last());
    }
}

/// Whatever was asked of a ledger, the pool of every currency is the sum of
/// the initial balances of the active stakes of that currency.
pub proof fn law_pool_is_sum_of_initial_balances(
    tiers: Seq<DurationTier>,
    params: Params,
    balances: BalanceMap,
    calls: Seq<Call>,
    currency: CurrencyId,
)
    requires
        durations_distinct(tiers),
    ensures
        ({
            let s = World::initial(tiers, params, balances).after_all(calls).state;
            s.pool_of(currency) == staked_total(s.records, currency)
        }),
{
    lemma_initial_valid(tiers, params);
    lemma_after_all_valid(World::initial(tiers, params, balances), calls);
    let s = World::initial(tiers, params, balances).after_all(calls).state;
    assert(s.pools[currency] == staked_total(s.records, currency));
}

/// Whatever was asked of a ledger, the principal of every active stake is at
/// least its initial balance.
pub proof fn law_principal_covers_initial_balance(
    tiers: Seq<DurationTier>,
    params: Params,
    balances: BalanceMap,
    calls: Seq<Call>,
    k: int,
)
    requires
        durations_distinct(tiers),
        0 <= k < World::initial(tiers, params, balances).after_all(calls).state.records.len(),
    ensures
        ({
            let r = World::initial(tiers, params, balances).after_all(calls).state.records[k];
            r.principal >= r.initial_balance
        }),
{
    lemma_initial_valid(tiers, params);
    lemma_after_all_valid(World::initial(tiers, params, balances), calls);
    let s = World::initial(tiers, params, balances).after_all(calls).state;
    assert(record_valid(s.records[k], s.next_nonce));
}

/// A stake takes exactly its amount out of the spendable balance of the
/// account and puts it into the pool and into the principal of the new stake.
/// No other balance changes, and nobody owns more or less than before.
pub proof fn law_stake_moves_amount(
    w: World,
    now: BlockNumber,
    account: AccountId,
    currency: CurrencyId,
    amount: Balance,
    duration: BlockNumber,
    a: AccountId,
    c: CurrencyId,
)
    requires
        w.state.valid(),
        w.state.stake_refusal(w.balances, account, currency, amount, duration).is_none(),
    ensures
        ({
            let next = w.after(Call::Stake { now, account, currency, amount, duration });
            &&& next.balances[(account, currency)] + amount == w.balances[(account, currency)]
            &&& next.state.pool_of(currency) == w.state.pool_of(currency) + amount
            &&& next.state.records.last().principal == amount
            &&& (a, c) != (account, currency) ==> next.balances[(a, c)] == w.balances[(a, c)]
            &&& c != currency ==> next.state.pool_of(c) == w.state.pool_of(c)
            &&& next.holdings(a, c) == w.holdings(a, c)
        }),
{
    let r = w.state.new_record(now, account, currency, amount, duration);
    lemma_sum_push(w.state.records, r, locked_in(a, c));
}

/// The withdrawal of a matured stake puts exactly the principal of that
/// moment into the spendable balance of the account. No other balance
/// changes, and nobody owns more or less than before.
pub proof fn law_matured_unstake_pays_principal(
    w: World,
    now: BlockNumber,
    account: AccountId,
    stake_id: StakeId,
    allow_early_with_deferral: bool,
    a: AccountId,
    c: CurrencyId,
)
    requires
        w.state.valid(),
        w.state.unstake_refusal(w.balances, now, account, stake_id, allow_early_with_deferral).is_none(),
        now >= maturity(w.state.record_of(stake_id)),
    ensures
        ({
            let r = w.state.record_of(stake_id);
            let next = w.after(Call::Unstake { now, account, stake_id, allow_early_with_deferral });
            &&& r.account == account
            &&& next.balances[(account, r.currency)] == w.balances[(account, r.currency)] + r.principal
            &&& next.state.pool_of(r.currency) + r.initial_balance == w.state.pool_of(r.currency)
            &&& !has_record(next.state.records, stake_id)
            &&& (a, c) != (account, r.currency) ==> next.balances[(a, c)] == w.balances[(a, c)]
            &&& next.holdings(a, c) == w.holdings(a, c)
        }),
{
    let k = record_index(w.state.records, stake_id);
    let r = w.state.records[k];
    lemma_sum_remove(w.state.records, k, locked_in(a, c));
    lemma_sum_remove(w.state.records, k, weight_in(r.currency));
    assert(w.state.pools[r.currency] == staked_total(w.state.records, r.currency));
    let next = w.after(Call::Unstake { now, account, stake_id, allow_early_with_deferral });
    if has_record(next.state.records, stake_id) {
        let at = record_index(next.state.records, stake_id);
        let from = if at < k { at } else { at + 1 };
        assert(w.state.records[from].unique_id == stake_id);
        w.state.lemma_index_unique(stake_id, from);
    }
}

/// An early withdrawal takes exactly the fee out of the spendable balance of
/// the account, at once. The stake stays active with its principal, and one
/// entry joins the queue.
pub proof fn law_early_unstake_charges_fee(
    w: World,
    now: BlockNumber,
    account: AccountId,
    stake_id: StakeId,
    a: AccountId,
    c: CurrencyId,
)
    requires
        w.state.valid(),
        w.state.unstake_refusal(w.balances, now, account, stake_id, true).is_none(),
        now < maturity(w.state.record_of(stake_id)),
    ensures
        ({
            let r = w.state.record_of(stake_id);
            let next = w.after(Call::Unstake { now, account, stake_id, allow_early_with_deferral: true });
            &&& r.account == account
            &&& next.balances[(account, r.currency)] + w.state.early_fee(r) == w.balances[(account, r.currency)]
            &&& next.state.records == w.state.records
            &&& next.state.pools == w.state.pools
            &&& next.state.queue.len() == w.state.queue.len() + 1
            &&& is_pending(next.state.queue, stake_id)
            &&& (a, c) != (account, r.currency) ==> next.balances[(a, c)] == w.balances[(a, c)]
            &&& (a, c) != (account, r.currency) ==> next.holdings(a, c) == w.holdings(a, c)
            &&& next.holdings(account, r.currency) + w.state.early_fee(r) == w.holdings(account, r.currency)
        }),
{
    let k = record_index(w.state.records, stake_id);
    let r = w.state.records[k];
    let next = w.after(Call::Unstake { now, account, stake_id, allow_early_with_deferral: true });
    let entry = w.state.entry_for(now, r);
    let at = due_len(w.state.queue, entry.unlock_block) as int;
    lemma_due_len(w.state.queue, entry.unlock_block);
    assert(next.state.queue[at].unique_id == stake_id);
}

/// Paying out a pending withdrawal puts exactly the principal of that moment
/// into the spendable balance of the account; the fee, taken when the
/// withdrawal was asked for, is not taken again. The stake is gone, and its
/// initial balance has left the pool.
pub proof fn law_finalize_pays_principal(s: StakingState, balances: BalanceMap, i: int, a: AccountId, c: CurrencyId)
    requires
        s.valid(),
        0 <= i < s.queue.len(),
    ensures
        ({
            let r = s.pending_record(i);
            let next = s.finalized(i);
            let paid = s.paid_out(balances, i);
            &&& r.unique_id == s.queue[i].unique_id
            &&& r.account == s.queue[i].account
            &&& paid[(r.account, r.currency)] == balances[(r.account, r.currency)] + r.principal
            &&& (a, c) != (r.account, r.currency) ==> paid[(a, c)] == balances[(a, c)]
            &&& next.pool_of(r.currency) + r.initial_balance == s.pool_of(r.currency)
            &&& !has_record(next.records, r.unique_id)
            &&& next.queue.len() + 1 == s.queue.len()
            &&& (World { state: next, balances: paid }).holdings(a, c) == (World { state: s, balances }).holdings(
                a,
                c,
            )
        }),
{
    let id = s.queue[i].unique_id;
    assert(has_record(s.records, id));
    let k = record_index(s.records, id);
    let r = s.records[k];
    assert(record_valid(r, s.next_nonce));
    lemma_sum_remove(s.records, k, locked_in(a, c));
    lemma_sum_remove(s.records, k, weight_in(r.currency));
    assert(s.pools[r.currency] == staked_total(s.records, r.currency));
    let next = s.finalized(i);
    if has_record(next.records, id) {
        let at = record_index(next.records, id);
        let from = if at < k { at } else { at + 1 };
        assert(s.records[from].unique_id == id);
        s.lemma_index_unique(id, from);
    }
}

/// The walk from place `i` of the queue on leaves everybody owning what they
/// owned.
proof fn lemma_drained_from_conserves(
    s: StakingState,
    balances: BalanceMap,
    now: BlockNumber,
    budget: Weight,
    i: nat,
    a: AccountId,
    c: CurrencyId,
)
    requires
        s.valid(),
    ensures
        ({
            let d = s.drained_from(balances, now, budget, i);
            (World { state: d.state, balances: d.balances }).holdings(a, c) == (World { state: s, balances }).holdings(
                a,
                c,
            )
        }),
    decreases s.queue.len() - i,
{
    if s.drain_stops(now, budget, i) {
    } else if s.payable(balances, i as int) {
        law_finalize_pays_principal(s, balances, i as int, a, c);
        s.lemma_finalized_valid(i as int);
        lemma_drained_from_conserves(
            s.finalized(i as int),
            s.paid_out(balances, i as int),
            now,
            (budget - s.params.finalize_cost) as Weight,
            i,
            a,
            c,
        );
    } else {
        lemma_drained_from_conserves(s.passed_over(i as int), balances, now, budget, i + 1, a, c);
    }
}

/// A maintenance step leaves everybody owning what they owned: what it pays
/// out was the stake's principal, and it charges no fee.
pub proof fn law_drain_conserves_holdings(w: World, now: BlockNumber, budget: Weight, a: AccountId, c: CurrencyId)
    requires
        w.state.valid(),
    ensures
        w.after(Call::Drain { now, budget }).holdings(a, c) == w.holdings(a, c),
{
    lemma_drained_from_conserves(w.state, w.balances, now, budget, 0, a, c);
}

/// The walk from place `i` of the queue on keeps an entry that is not yet
/// due, and its stake.
proof fn lemma_drained_from_keeps(
    s: StakingState,
    balances: BalanceMap,
    now: BlockNumber,
    budget: Weight,
    i: nat,
    e: UnstakeQueueEntry,
)
    requires
        s.valid(),
        s.queue.contains(e),
        e.unlock_block > now,
    ensures
        s.drained_from(balances, now, budget, i).state.queue.contains(e),
        has_record(s.drained_from(balances, now, budget, i).state.records, e.unique_id),
    decreases s.queue.len() - i,
{
    let at = choose|at: int| 0 <= at < s.queue.len() && s.queue[at] == e;
    assert(has_record(s.records, s.queue[at].unique_id));
    if s.drain_stops(now, budget, i) {
    } else if s.payable(balances, i as int) {
        let next = s.finalized(i as int);
        s.lemma_finalized_valid(i as int);
        let to = if at < i { at } else { at - 1 };
        assert(next.queue[to] == e);
        lemma_drained_from_keeps(
            next,
            s.paid_out(balances, i as int),
            now,
            (budget - s.params.finalize_cost) as Weight,
            i,
            e,
        );
    } else {
        lemma_drained_from_keeps(s.passed_over(i as int), balances, now, budget, i + 1, e);
    }
}

/// A maintenance step never pays out a withdrawal whose unlock block lies
/// ahead: the entry stays queued and its stake stays active.
pub proof fn law_drain_keeps_entries_not_due(w: World, now: BlockNumber, budget: Weight, e: UnstakeQueueEntry)
    requires
        w.state.valid(),
        w.state.queue.contains(e),
        e.unlock_block > now,
    ensures
        w.after(Call::Drain { now, budget }).state.queue.contains(e),
        has_record(w.after(Call::Drain { now, budget }).state.records, e.unique_id),
{
    lemma_drained_from_keeps(w.state, w.balances, now, budget, 0, e);
}

/// The walk from place `i` of the queue on spends the cost of one payout for
/// every entry that it removes.
proof fn lemma_drained_from_spends(s: StakingState, balances: BalanceMap, now: BlockNumber, budget: Weight, i: nat)
    requires
        i <= s.queue.len(),
    ensures
        ({
            let d = s.drained_from(balances, now, budget, i);
            &&& d.state.queue.len() <= s.queue.len()
            &&& d.budget + s.params.finalize_cost * (s.queue.len() - d.state.queue.len()) == budget
        }),
    decreases s.queue.len() - i,
{
    let cost = s.params.finalize_cost;
    if s.drain_stops(now, budget, i) {
        assert(cost * 0 == 0);
    } else if s.payable(balances, i as int) {
        let next = s.finalized(i as int);
        lemma_drained_from_spends(next, s.paid_out(balances, i as int), now, (budget - cost) as Weight, i);
        let d = s.drained_from(balances, now, budget, i);
        assert(cost * (s.queue.len() - d.state.queue.len()) == cost * (next.queue.len() - d.state.queue.len())
            + cost) by (nonlinear_arith)
            requires
                next.queue.len() + 1 == s.queue.len(),
        ;
    } else {
        lemma_drained_from_spends(s.passed_over(i as int), balances, now, budget, i + 1);
    }
}

/// A maintenance step hands back the budget less the cost of one payout for
/// every entry that it removed from the queue.
pub proof fn law_drain_spends_per_payout(w: World, now: BlockNumber, budget: Weight)
    ensures
        ({
            let d = w.state.drained(w.balances, now, budget);
            &&& d.state.queue.len() <= w.state.queue.len()
            &&& d.budget + w.state.params.finalize_cost * (w.state.queue.len() - d.state.queue.len()) == budget
        }),
{
    lemma_drained_from_spends(w.state, w.balances, now, budget, 0);
}

/// A maintenance step that finds no entry due changes nothing and hands the
/// whole budget back.
pub proof fn law_drain_without_due_entries_is_noop(w: World, now: BlockNumber, budget: Weight)
    requires
        due_len(w.state.queue, now) == 0,
    ensures
        w.after(Call::Drain { now, budget }) == w,
        w.state.drained(w.balances, now, budget).budget == budget,
{
    w.state.lemma_drained_nothing_due(w.balances, now, budget);
}

/// A reward falls short of the exact share of the reward pool by less than
/// one unit.
pub proof fn law_reward_loses_less_than_one_unit(r: StakeRecord, fee: Balance, total: nat)
    requires
        total > 0,
    ensures
        reward_of(r, fee, total) * total <= reward_pool(r, fee) * r.initial_balance,
        reward_pool(r, fee) * r.initial_balance < (reward_of(r, fee, total) + 1) * total,
{
    lemma_share_error_below_one(reward_pool(r, fee), r.initial_balance as nat, total);
}

/// Two stakes of one currency and one rate are rewarded in the ratio of
/// their initial balances, up to the rounding of each reward: with initial
/// balances `a` and `b`, the rewards `ra` and `rb` of one session satisfy
/// `-b < ra * b - rb * a < a`. Stakes of equal initial balance earn the
/// same.
pub proof fn law_rewards_proportional(s: StakingState, currency: CurrencyId, fee: Balance, i: int, j: int)
    requires
        s.valid(),
        0 <= i < s.records.len(),
        0 <= j < s.records.len(),
        s.records[i].currency == currency,
        s.records[j].currency == currency,
        s.records[i].reward_rate.parts() == s.records[j].reward_rate.parts(),
        s.records[i].initial_balance > 0,
        s.records[j].initial_balance > 0,
    ensures
        ({
            let total = s.pool_of(currency);
            let a = s.records[i].initial_balance;
            let b = s.records[j].initial_balance;
            let ra = reward_of(s.records[i], fee, total);
            let rb = reward_of(s.records[j], fee, total);
            &&& -b < ra * b - rb * a < a
            &&& a == b ==> ra == rb
            &&& a <= b ==> ra <= rb
        }),
{
    let total = s.pools[currency];
    assert(total == staked_total(s.records, currency));
    lemma_sum_covers(s.records, i, weight_in(currency));
    let a = s.records[i].initial_balance as nat;
    let b = s.records[j].initial_balance as nat;
    let pool = reward_pool(s.records[i], fee);
    lemma_share_proportional(pool, a, b, total);
    if a <= b {
        lemma_share_monotonic(pool, a, b, total);
    }
    if b <= a {
        lemma_share_monotonic(pool, b, a, total);
    }
}

/// When the fee of a currency is shared out, a stake of that currency that
/// can hold its reward has it added to its principal; nothing else about it
/// changes. Stakes of other currencies, the pools and the queue stay as they
/// are.
pub proof fn law_reward_is_credited(s: StakingState, currency: CurrencyId, fee: Balance, k: int)
    requires
        0 <= k < s.records.len(),
    ensures
        ({
            let r = s.records[k];
            let total = s.pool_of(currency);
            let next = s.distributed_one(currency, fee);
            &&& next.records.len() == s.records.len()
            &&& r.currency == currency && reward_fits(r, fee, total) ==> next.records[k] == (StakeRecord {
                principal: (r.principal + reward_of(r, fee, total)) as u128,
                ..r
            })
            &&& r.currency != currency || !reward_fits(r, fee, total) ==> next.records[k] == r
            &&& next.pools == s.pools
            &&& next.queue == s.queue
        }),
{
}

/// If `g` times `total` stays within `bound` times `h` for every record, it
/// does so for the sums.
proof fn lemma_sum_scaled(
    records: Seq<StakeRecord>,
    g: spec_fn(StakeRecord) -> nat,
    h: spec_fn(StakeRecord) -> nat,
    total: nat,
    bound: nat,
)
    requires
        forall|k: int| 0 <= k < records.len() ==> g(#[trigger] records[k]) * total <= bound * h(records[k]),
    ensures
        sum_by(records, g) * total <= bound * sum_by(records, h),
    decreases records.len(),
{
    if records.len() == 0 {
        assert(0 * total == 0);
        assert(bound * 0 == 0);
    } else {
        let rest = records.drop_last();
        assert forall|k: int| 0 <= k < rest.len() implies g(#[trigger] rest[k]) * total <= bound * h(rest[k]) by {
            assert(rest[k] == records[k]);
        }
        lemma_sum_scaled(rest, g, h, total, bound);
        let s0 = sum_by(rest, g);
        let w0 = sum_by(rest, h);
        let x = g(records[records.len() - 1]);
        let w = h(records[records.len() - 1]);
        assert((s0 + x) * total <= bound * (w0 + w)) by (nonlinear_arith)
            requires
                s0 * total <= bound * w0,
                x * total <= bound * w,
        ;
    }
}

/// The reward of a record of `currency` whose rate is `parts` hundredths,
/// and nothing for another.
pub open spec fn reward_at(currency: CurrencyId, fee: Balance, total: nat, parts: nat) -> spec_fn(
    StakeRecord,
) -> nat {
    |r: StakeRecord|
        if r.currency == currency && r.reward_rate.parts() == parts {
            reward_of(r, fee, total)
        } else {
            0
        }
}

/// The rewards that one session holds for the stakes of one currency and one
/// rate never come to more than that rate's share of the fee, whatever other
/// stakes the currency has.
pub proof fn law_rewards_of_one_rate_within_reward_pool(
    s: StakingState,
    currency: CurrencyId,
    fee: Balance,
    parts: nat,
)
    requires
        s.valid(),
    ensures
        sum_by(s.records, reward_at(currency, fee, s.pool_of(currency), parts)) <= percent_of(parts, fee as nat),
{
    let total = s.pools[currency];
    let bound = percent_of(parts, fee as nat);
    let g = reward_at(currency, fee, total, parts);
    assert(total == staked_total(s.records, currency));
    if total > 0 {
        assert forall|k: int| 0 <= k < s.records.len() implies g(#[trigger] s.records[k]) * total <= bound
            * weight_in(currency)(s.records[k]) by {
            let r = s.records[k];
            if r.currency == currency && r.reward_rate.parts() == parts {
                lemma_share_error_below_one(reward_pool(r, fee), r.initial_balance as nat, total);
            } else {
                assert(0 * total == 0);
                assert(bound * weight_in(currency)(r) >= 0) by (nonlinear_arith)
                    requires
                        bound >= 0,
                        weight_in(currency)(r) >= 0,
                ;
            }
        }
        lemma_sum_scaled(s.records, g, weight_in(currency), total, bound);
        let rewards = sum_by(s.records, g);
        assert(rewards <= bound) by (nonlinear_arith)
            requires
                rewards * total <= bound * total,
                total > 0,
        ;
    } else {
        assert forall|k: int| 0 <= k < s.records.len() implies g(#[trigger] s.records[k]) == 0 by {
        }
        lemma_zero_sum(s.records, g);
    }
}

/// When the fee of a currency is shared out, the principals of that
/// currency's stakes grow together by no more than `bound`, if no stake of
/// the currency can earn more than `bound` of the fee. With one rate for all
/// of them the bound is that rate's share of the fee.
pub proof fn law_rewards_within_bound(s: StakingState, currency: CurrencyId, fee: Balance, bound: nat)
    requires
        s.valid(),
        forall|k: int|
            0 <= k < s.records.len() && (#[trigger] s.records[k]).currency == currency ==> reward_pool(
                s.records[k],
                fee,
            ) <= bound,
    ensures
        principal_total(s.distributed_one(currency, fee).records, currency) <= principal_total(s.records, currency)
            + bound,
{
    let total = s.pools[currency];
    let next = s.distributed_one(currency, fee);
    assert(total == staked_total(s.records, currency));
    assert forall|k: int| 0 <= k < next.records.len() implies principal_in(currency)(#[trigger] next.records[k])
        <= principal_in(currency)(s.records[k]) + reward_in(currency, fee, total)(s.records[k]) by {
    }
    lemma_sum_bounded_by_two(
        next.records,
        principal_in(currency),
        s.records,
        principal_in(currency),
        reward_in(currency, fee, total),
    );
    let rewards = sum_by(s.records, reward_in(currency, fee, total));
    if total > 0 {
        assert forall|k: int| 0 <= k < s.records.len() implies reward_in(currency, fee, total)(
            #[trigger] s.records[k],
        ) * total <= bound * weight_in(currency)(s.records[k]) by {
            let r = s.records[k];
            if r.currency == currency {
                lemma_share_error_below_one(reward_pool(r, fee), r.initial_balance as nat, total);
                assert(reward_pool(r, fee) * r.initial_balance <= bound * r.initial_balance) by (nonlinear_arith)
                    requires
                        reward_pool(r, fee) <= bound,
                ;
            } else {
                assert(0 * total == 0);
                assert(bound * 0 == 0);
            }
        }
        lemma_sum_scaled(s.records, reward_in(currency, fee, total), weight_in(currency), total, bound);
        assert(rewards <= bound) by (nonlinear_arith)
            requires
                rewards * total <= bound * total,
                total > 0,
        ;
    } else {
        assert forall|k: int| 0 <= k < s.records.len() implies reward_in(currency, fee, total)(
            #[trigger] s.records[k],
        ) == 0 by {
        }
        lemma_zero_sum(s.records, reward_in(currency, fee, total));
    }
}

/// When the fee of a currency is shared out, the principals of that
/// currency's stakes grow together by no more than the fee, and no principal
/// shrinks.
pub proof fn law_rewards_within_fee(s: StakingState, currency: CurrencyId, fee: Balance)
    requires
        s.valid(),
    ensures
        principal_total(s.distributed_one(currency, fee).records, currency) <= principal_total(s.records, currency)
            + fee,
        forall|k: int|
            0 <= k < s.records.len() ==> (#[trigger] s.distributed_one(currency, fee).records[k]).principal
                >= s.records[k].principal,
{
    assert forall|k: int|
        0 <= k < s.records.len() && (#[trigger] s.records[k]).currency == currency implies reward_pool(
        s.records[k],
        fee,
    ) <= fee by {
        lemma_percent_of_bounded(s.records[k].reward_rate.parts(), fee as nat);
    }
    law_rewards_within_bound(s, currency, fee, fee as nat);
}

/// A call that makes a stake gives it a name that bears the ledger's next
/// number and that no active stake and no pending withdrawal bears.
pub proof fn law_new_name_is_fresh(
    w: World,
    now: BlockNumber,
    account: AccountId,
    currency: CurrencyId,
    amount: Balance,
    duration: BlockNumber,
)
    requires
        w.state.valid(),
        w.state.stake_refusal(w.balances, account, currency, amount, duration).is_none(),
    ensures
        ({
            let id = w.state.new_record(now, account, currency, amount, duration).unique_id;
            let next = w.after(Call::Stake { now, account, currency, amount, duration });
            &&& id.nonce == w.state.next_nonce
            &&& !has_record(w.state.records, id)
            &&& !is_pending(w.state.queue, id)
            &&& next.state.next_nonce == w.state.next_nonce + 1
        }),
{
    let id = w.state.new_record(now, account, currency, amount, duration).unique_id;
    if has_record(w.state.records, id) {
        let k = record_index(w.state.records, id);
        assert(record_valid(w.state.records[k], w.state.next_nonce));
    }
    if is_pending(w.state.queue, id) {
        let q = choose|q: int| 0 <= q < w.state.queue.len() && (#[trigger] w.state.queue[q]).unique_id == id;
        assert(has_record(w.state.records, w.state.queue[q].unique_id));
        let k = record_index(w.state.records, id);
        assert(record_valid(w.state.records[k], w.state.next_nonce));
    }
}

/// No call takes back a number that names were made of. Together with
/// `law_new_name_is_fresh`: a name is never used twice, not even after its
/// stake has ended.
pub proof fn law_numbers_are_not_taken_back(w: World, call: Call)
    ensures
        w.after(call).state.next_nonce >= w.state.next_nonce,
{
    match call {
        Call::Stake { now, account, currency, amount, duration } => {
        },
        Call::Unstake { now, account, stake_id, allow_early_with_deferral } => {
        },
        Call::Distribute { session_fees } => {
            lemma_distributed_keeps_nonce(w.state, session_fees);
        },
        Call::Drain { now, budget } => {
            lemma_drained_keeps_nonce(w.state, w.balances, now, budget, 0);
        },
        Call::SetTiers { tiers } => {
        },
        Call::TakeEvents => {
        },
        Call::Credit { account, currency, amount } => {
        },
        Call::Debit { account, currency, amount } => {
        },
        Call::MigrateToV1 { version } => {
        },
    }
}

/// Sharing out fees hands out no number.
proof fn lemma_distributed_keeps_nonce(s: StakingState, fees: Seq<(CurrencyId, Balance)>)
    ensures
        s.distributed(fees).next_nonce == s.next_nonce,
    decreases fees.len(),
{
    if fees.len() > 0 {
        lemma_distributed_keeps_nonce(s, fees.drop_last());
    }
}

/// A maintenance step hands out no number.
proof fn lemma_drained_keeps_nonce(s: StakingState, balances: BalanceMap, now: BlockNumber, budget: Weight, i: nat)
    ensures
        s.drained_from(balances, now, budget, i).state.next_nonce == s.next_nonce,
    decreases s.queue.len() - i,
{
    if s.drain_stops(now, budget, i) {
    } else if s.payable(balances, i as int) {
        lemma_drained_keeps_nonce(
            s.finalized(i as int),
            s.paid_out(balances, i as int),
            now,
            (budget - s.params.finalize_cost) as Weight,
            i,
        );
    } else {
        lemma_drained_keeps_nonce(s.passed_over(i as int), balances, now, budget, i + 1);
    }
}

/// The name `id` was handed out, and the stake that bore it has ended or
/// waits in the queue.
pub open spec fn withdrawn(s: StakingState, id: StakeId) -> bool {
    &&& id.nonce < s.next_nonce
    &&& has_record(s.records, id) ==> is_pending(s.queue, id)
}

/// A withdrawal that is not refused uses up the name of the stake.
pub proof fn law_unstake_uses_up_the_name(
    w: World,
    now: BlockNumber,
    account: AccountId,
    stake_id: StakeId,
    allow_early_with_deferral: bool,
)
    requires
        w.state.valid(),
        w.state.unstake_refusal(w.balances, now, account, stake_id, allow_early_with_deferral).is_none(),
    ensures
        withdrawn(w.after(Call::Unstake { now, account, stake_id, allow_early_with_deferral }).state, stake_id),
{
    let k = record_index(w.state.records, stake_id);
    assert(record_valid(w.state.records[k], w.state.next_nonce));
    if now >= maturity(w.state.record_of(stake_id)) {
        law_matured_unstake_pays_principal(
            w,
            now,
            account,
            stake_id,
            allow_early_with_deferral,
            account,
            CurrencyId::Tifi,
        );
    } else {
        law_early_unstake_charges_fee(w, now, account, stake_id, account, CurrencyId::Tifi);
    }
}

/// A name that a record bears after another record was removed was borne
/// before.
proof fn lemma_removed_record_was_there(records: Seq<StakeRecord>, k: int, id: StakeId)
    requires
        0 <= k < records.len(),
        has_record(records.remove(k), id),
    ensures
        has_record(records, id),
{
    let at = record_index(records.remove(k), id);
    let from = if at < k { at } else { at + 1 };
    assert(records[from].unique_id == id);
}

/// A withdrawal stays pending when the entry of another stake leaves the
/// queue.
proof fn lemma_entry_stays_pending(queue: Seq<UnstakeQueueEntry>, i: int, id: StakeId)
    requires
        0 <= i < queue.len(),
        is_pending(queue, id),
        queue[i].unique_id != id,
    ensures
        is_pending(queue.remove(i), id),
{
    let q = choose|q: int| 0 <= q < queue.len() && (#[trigger] queue[q]).unique_id == id;
    let to = if q < i { q } else { q - 1 };
    assert(queue.remove(i)[to].unique_id == id);
}

/// Sharing out fees changes neither the names of the stakes nor the queue.
proof fn lemma_distributed_keeps_names(s: StakingState, fees: Seq<(CurrencyId, Balance)>, id: StakeId)
    ensures
        has_record(s.distributed(fees).records, id) <==> has_record(s.records, id),
        s.distributed(fees).queue == s.queue,
        s.distributed(fees).next_nonce == s.next_nonce,
    decreases fees.len(),
{
    if fees.len() > 0 {
        let before = s.distributed(fees.drop_last());
        let after = s.distributed(fees);
        lemma_distributed_keeps_names(s, fees.drop_last(), id);
        if has_record(before.records, id) {
            let k = record_index(before.records, id);
            assert(after.records[k].unique_id == id);
        }
        if has_record(after.records, id) {
            let k = record_index(after.records, id);
            assert(before.records[k].unique_id == id);
        }
    }
}

/// A name that is used up stays so through a maintenance step.
proof fn lemma_drained_keeps_withdrawn(
    s: StakingState,
    balances: BalanceMap,
    now: BlockNumber,
    budget: Weight,
    i: nat,
    id: StakeId,
)
    requires
        s.valid(),
        withdrawn(s, id),
    ensures
        withdrawn(s.drained_from(balances, now, budget, i).state, id),
    decreases s.queue.len() - i,
{
    if s.drain_stops(now, budget, i) {
    } else if s.payable(balances, i as int) {
        let next = s.finalized(i as int);
        law_finalize_pays_principal(s, balances, i as int, 0, CurrencyId::Tifi);
        s.lemma_finalized_valid(i as int);
        if has_record(next.records, id) {
            let k = record_index(s.records, s.queue[i as int].unique_id);
            assert(has_record(s.records, s.queue[i as int].unique_id));
            lemma_removed_record_was_there(s.records, k, id);
            lemma_entry_stays_pending(s.queue, i as int, id);
        }
        lemma_drained_keeps_withdrawn(
            next,
            s.paid_out(balances, i as int),
            now,
            (budget - s.params.finalize_cost) as Weight,
            i,
            id,
        );
    } else {
        lemma_drained_keeps_withdrawn(s.passed_over(i as int), balances, now, budget, i + 1, id);
    }
}

/// A name that is used up stays so through any call.
proof fn lemma_after_keeps_withdrawn(w: World, call: Call, id: StakeId)
    requires
        w.state.valid(),
        withdrawn(w.state, id),
    ensures
        withdrawn(w.after(call).state, id),
{
    let s = w.state;
    let next = w.after(call).state;
    match call {
        Call::Stake { now, account, currency, amount, duration } => {
            if s.stake_refusal(w.balances, account, currency, amount, duration).is_none() {
                if has_record(next.records, id) {
                    let k = record_index(next.records, id);
                    assert(s.records[k].unique_id == id);
                }
            }
        },
        Call::Unstake { now, account, stake_id, allow_early_with_deferral } => {
            if s.unstake_refusal(w.balances, now, account, stake_id, allow_early_with_deferral).is_none() {
                let k = record_index(s.records, stake_id);
                if now >= maturity(s.records[k]) {
                    if has_record(next.records, id) {
                        lemma_removed_record_was_there(s.records, k, id);
                    }
                } else {
                    if has_record(next.records, id) {
                        let entry = s.entry_for(now, s.records[k]);
                        let at = due_len(s.queue, entry.unlock_block) as int;
                        lemma_due_len(s.queue, entry.unlock_block);
                        let q = choose|q: int| 0 <= q < s.queue.len() && (#[trigger] s.queue[q]).unique_id == id;
                        let to = if q < at { q } else { q + 1 };
                        assert(next.queue[to].unique_id == id);
                    }
                }
            }
        },
        Call::Distribute { session_fees } => {
            lemma_distributed_keeps_names(s, session_fees, id);
        },
        Call::Drain { now, budget } => {
            lemma_drained_keeps_withdrawn(s, w.balances, now, budget, 0, id);
        },
        Call::SetTiers { tiers } => {
        },
        Call::TakeEvents => {
        },
        Call::Credit { account, currency, amount } => {
        },
        Call::Debit { account, currency, amount } => {
        },
        Call::MigrateToV1 { version } => {
        },
    }
}

/// A stake cannot be withdrawn twice: once its name is used up, whatever is
/// asked of the ledger afterwards, a withdrawal under that name is refused
/// because there is no such stake.
pub proof fn law_no_stake_is_withdrawn_twice(
    w: World,
    calls: Seq<Call>,
    id: StakeId,
    now: BlockNumber,
    account: AccountId,
    allow_early_with_deferral: bool,
)
    requires
        w.state.valid(),
        withdrawn(w.state, id),
    ensures
        withdrawn(w.after_all(calls).state, id),
        w.after_all(calls).state.unstake_refusal(
            w.after_all(calls).balances,
            now,
            account,
            id,
            allow_early_with_deferral,
        ) == Some(Error::StakeNotFound),
    decreases calls.len(),
{
    if calls.len() > 0 {
        law_no_stake_is_withdrawn_twice(w, calls.drop_last(), id, now, account, allow_early_with_deferral);
        lemma_after_all_valid(w, calls.drop_last());
        lemma_after_keeps_withdrawn(w.after_all(calls.drop_last()), calls.last(), id);
    }
}

/// An early withdrawal takes its place in the queue behind every entry that
/// unlocks at the same block or before, and ahead of every entry that
/// unlocks later; the entries that were there keep their order. Entries of
/// one unlock block are therefore paid out in the order in which they were
/// asked for.
pub proof fn law_queue_is_first_in_first_out(w: World, now: BlockNumber, account: AccountId, stake_id: StakeId)
    requires
        w.state.valid(),
        w.state.unstake_refusal(w.balances, now, account, stake_id, true).is_none(),
        now < maturity(w.state.record_of(stake_id)),
    ensures
        ({
            let old_queue = w.state.queue;
            let call = Call::Unstake { now, account, stake_id, allow_early_with_deferral: true };
            let new_queue = w.after(call).state.queue;
            let entry = w.state.entry_for(now, w.state.record_of(stake_id));
            let at = due_len(old_queue, entry.unlock_block) as int;
            &&& entry.unlock_block == now + w.state.params.forced_unlock_delay
            &&& 0 <= at <= old_queue.len()
            &&& new_queue == old_queue.insert(at, entry)
            &&& new_queue[at] == entry
            &&& forall|j: int| 0 <= j < at ==> new_queue[j] == old_queue[j] && (#[trigger] old_queue[j]).unlock_block
                <= entry.unlock_block
            &&& forall|j: int|
                at <= j < old_queue.len() ==> new_queue[j + 1] == old_queue[j] && (
                #[trigger] old_queue[j]).unlock_block > entry.unlock_block
        }),
{
    let old_queue = w.state.queue;
    let entry = w.state.entry_for(now, w.state.record_of(stake_id));
    let at = due_len(old_queue, entry.unlock_block) as int;
    lemma_due_len(old_queue, entry.unlock_block);
    assert forall|j: int| at <= j < old_queue.len() implies (#[trigger] old_queue[j]).unlock_block
        > entry.unlock_block by {
        if j > at {
            assert(old_queue[at].unlock_block <= old_queue[j].unlock_block);
        }
    }
}

/// Moving a ledger to version 1 leaves everybody owning what they owned:
/// every stake that ends is paid its principal. A ledger that is at version
/// 1 already, or whose stakes cannot all be paid, is left as it was.
pub proof fn law_migration_conserves_holdings(w: World, version: u16, a: AccountId, c: CurrencyId)
    ensures
        w.after(Call::MigrateToV1 { version }).holdings(a, c) == w.holdings(a, c),
        version >= 1 || !w.refundable() ==> w.after(Call::MigrateToV1 { version }) == w,
        version < 1 && w.refundable() ==> {
            let next = w.after(Call::MigrateToV1 { version });
            &&& next.balances[(a, c)] == w.holdings(a, c)
            &&& next.state.records.len() == 0
            &&& next.state.queue.len() == 0
            &&& next.state.pool_of(c) == 0
            &&& next.state.tiers == standard_tiers()
            &&& next.state.params.unstake_fee == Percent::of_parts(1)
            &&& next.state.next_nonce == w.state.next_nonce
        },
{
}

/// A ledger without stakes can always be moved to version 1, as long as the
/// balances around it are balances: nothing has to be paid.
pub proof fn law_ledger_without_stakes_is_refundable(w: World)
    requires
        w.state.records.len() == 0,
        forall|account: AccountId, currency: CurrencyId| #[trigger] w.balances[(account, currency)] <= max_balance(),
    ensures
        w.refundable(),
{
    assert forall|account: AccountId, currency: CurrencyId| #[trigger] w.holdings(account, currency)
        <= max_balance() by {
        assert(w.balances[(account, currency)] <= max_balance());
    }
}

/// A ledger that can be moved to version 1 stays so through every call that
/// hands nobody anything new: stakes, withdrawals, maintenance steps, the
/// upkeep of tiers and reports, and the spending of funds. Only rewards and
/// funds from outside can make an account own more than a balance holds.
pub proof fn law_refundable_is_kept(w: World, call: Call)
    requires
        w.state.valid(),
        w.refundable(),
        !(call is Distribute),
        !(call is Credit),
    ensures
        w.after(call).refundable(),
{
    let next = w.after(call);
    assert forall|a: AccountId, c: CurrencyId| #[trigger] next.holdings(a, c) <= max_balance() by {
        assert(w.holdings(a, c) <= max_balance());
        match call {
            Call::Stake { now, account, currency, amount, duration } => {
                if w.state.stake_refusal(w.balances, account, currency, amount, duration).is_none() {
                    law_stake_moves_amount(w, now, account, currency, amount, duration, a, c);
                }
            },
            Call::Unstake { now, account, stake_id, allow_early_with_deferral } => {
                if w.state.unstake_refusal(w.balances, now, account, stake_id, allow_early_with_deferral).is_none() {
                    if now >= maturity(w.state.record_of(stake_id)) {
                        law_matured_unstake_pays_principal(
                            w,
                            now,
                            account,
                            stake_id,
                            allow_early_with_deferral,
                            a,
                            c,
                        );
                    } else {
                        law_early_unstake_charges_fee(w, now, account, stake_id, a, c);
                    }
                }
            },
            Call::Distribute { session_fees } => {
            },
            Call::Drain { now, budget } => {
                law_drain_conserves_holdings(w, now, budget, a, c);
            },
            Call::SetTiers { tiers } => {
            },
            Call::TakeEvents => {
            },
            Call::Credit { account, currency, amount } => {
            },
            Call::Debit { account, currency, amount } => {
            },
            Call::MigrateToV1 { version } => {
                law_migration_conserves_holdings(w, version, a, c);
            },
        }
    }
}

} // verus!
