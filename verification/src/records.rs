//! What the ledger keeps: stakes, pending withdrawals, and what it reports.

use vstd::prelude::*;
use crate::percent::Percent;
use crate::primitives::{AccountId, Balance, BlockNumber, CurrencyId, StakeId, Weight};

verus! {

/// One active stake.
#[derive(Clone, Copy, Debug, PartialEq, Eq, Structural)]
pub struct StakeRecord {
    /// The name of this stake.
    pub unique_id: StakeId,
    /// Who made the stake and will be paid when it ends.
    pub account: AccountId,
    pub currency: CurrencyId,
    /// What was locked. This is the weight of the stake when rewards are
    /// shared out.
    pub initial_balance: Balance,
    /// What will be paid out: the initial balance and all rewards so far.
    pub principal: Balance,
    /// For how many blocks the stake is locked.
    pub duration: BlockNumber,
    /// The rate of the stake's tier as it was when the stake was made.
    pub reward_rate: Percent,
    /// The block at which the stake was made.
    pub start_block: BlockNumber,
}

/// A request to withdraw a stake before it has matured, waiting for its
/// unlock block.
#[derive(Clone, Copy, Debug, PartialEq, Eq, Structural)]
pub struct UnstakeQueueEntry {
    pub unique_id: StakeId,
    pub account: AccountId,
    /// The first block at which the stake may be paid out.
    pub unlock_block: BlockNumber,
    /// The fee that was taken when the request was made.
    pub fee_charged: Balance,
}

/// What the ledger reports of its own doing, in the order in which it
/// happened.
#[derive(Clone, Copy, Debug, PartialEq, Eq, Structural)]
pub enum Event {
    /// `amount` left the account's spendable balance and was locked.
    Staked { account: AccountId, unique_id: StakeId, currency: CurrencyId, amount: Balance, duration: BlockNumber },
    /// An early withdrawal was asked for: `fee` left the account's spendable
    /// balance, and the stake waits for `unlock_block`.
    UnstakeQueued { account: AccountId, unique_id: StakeId, fee: Balance, unlock_block: BlockNumber },
    /// The stake ended: `principal` entered the account's spendable balance
    /// and `initial_balance` left the currency's pool.
    Unstaked {
        account: AccountId,
        unique_id: StakeId,
        currency: CurrencyId,
        initial_balance: Balance,
        principal: Balance,
    },
    /// The stake was passed over when a session's rewards were shared out,
    /// because its principal cannot hold its share.
    RewardSkipped { account: AccountId, unique_id: StakeId },
    /// The pending withdrawal is due but stays queued, because the account's
    /// balance cannot hold the principal.
    UnstakeSkipped { account: AccountId, unique_id: StakeId },
}

/// The settings of a ledger, fixed when it is made.
#[derive(Clone, Copy, Debug, PartialEq, Eq, Structural)]
pub struct Params {
    /// The smallest amount that can be staked.
    pub min_stake: Balance,
    /// The most stakes that one account can hold at a time.
    pub max_stakes_per_account: u32,
    /// The share of the initial balance that an early withdrawal costs.
    pub unstake_fee: Percent,
    /// For how many blocks an early withdrawal waits.
    pub forced_unlock_delay: BlockNumber,
    /// The most withdrawals that can wait at a time.
    pub queue_capacity: u32,
    /// What it costs the maintenance budget to pay out one pending
    /// withdrawal.
    pub finalize_cost: Weight,
}

/// A vector of the same items in the same order.
pub fn copy_of<T: Copy>(items: &Vec<T>) -> (out: Vec<T>)
    ensures
        out@ == items@,
{
    let mut out: Vec<T> = Vec::new();
    let mut i: usize = 0;
    while i < items.len()
        invariant
            i <= items.len(),
            out@ == items@.take(i as int),
        decreases items.len() - i,
    {
        out.push(items[i]);
        assert(items@.take(i + 1) =~= items@.take(i as int).push(items[i as int]));
        i += 1;
    }
    assert(items@.take(items.len() as int) =~= items@);
    out
}

/// The sum of `f` over `records`.
pub open spec fn sum_by(records: Seq<StakeRecord>, f: spec_fn(StakeRecord) -> nat) -> nat
    decreases records.len(),
{
    if records.len() == 0 {
        0
    } else {
        sum_by(records.drop_last(), f) + f(records.last())
    }
}

/// The weight that a record has in the pool of `currency`: its initial
/// balance if it is of that currency, nothing otherwise.
pub open spec fn weight_in(currency: CurrencyId) -> spec_fn(StakeRecord) -> nat {
    |r: StakeRecord|
        if r.currency == currency {
            r.initial_balance as nat
        } else {
            0
        }
}

/// One for a record of `account`, nothing for another.
pub open spec fn one_if_of(account: AccountId) -> spec_fn(StakeRecord) -> nat {
    |r: StakeRecord|
        if r.account == account {
            1nat
        } else {
            0
        }
}

/// Whether a record is of `account`.
pub open spec fn is_of(account: AccountId) -> spec_fn(StakeRecord) -> bool {
    |r: StakeRecord| r.account == account
}

/// The sum of the initial balances of the records of `currency`.
pub open spec fn staked_total(records: Seq<StakeRecord>, currency: CurrencyId) -> nat {
    sum_by(records, weight_in(currency))
}

/// The number of records of `account`.
pub open spec fn stakes_held(records: Seq<StakeRecord>, account: AccountId) -> nat {
    sum_by(records, one_if_of(account))
}

/// Some record bears the name `id`.
pub open spec fn has_record(records: Seq<StakeRecord>, id: StakeId) -> bool {
    exists|k: int| 0 <= k < records.len() && (#[trigger] records[k]).unique_id == id
}

/// The place of a record that bears the name `id`.
pub open spec fn record_index(records: Seq<StakeRecord>, id: StakeId) -> int {
    choose|k: int| 0 <= k < records.len() && (#[trigger] records[k]).unique_id == id
}

/// Some pending withdrawal is for the stake `id`.
pub open spec fn is_pending(queue: Seq<UnstakeQueueEntry>, id: StakeId) -> bool {
    exists|k: int| 0 <= k < queue.len() && (#[trigger] queue[k]).unique_id == id
}

/// The pending withdrawals stand in the order of their unlock blocks.
pub open spec fn queue_sorted(queue: Seq<UnstakeQueueEntry>) -> bool {
    forall|i: int, j: int|
        0 <= i < j < queue.len() ==> (#[trigger] queue[i]).unlock_block <= (#[trigger] queue[j]).unlock_block
}

/// How many entries at the head of `queue` unlock at `block` or before.
pub open spec fn due_len(queue: Seq<UnstakeQueueEntry>, block: BlockNumber) -> nat
    decreases queue.len(),
{
    if queue.len() == 0 || queue[0].unlock_block > block {
        0
    } else {
        1 + due_len(queue.drop_first(), block)
    }
}

pub proof fn lemma_sum_push(records: Seq<StakeRecord>, r: StakeRecord, f: spec_fn(StakeRecord) -> nat)
    ensures
        sum_by(records.push(r), f) == sum_by(records, f) + f(r),
{
    assert(records.push(r).drop_last() =~= records);
}

pub proof fn lemma_sum_remove(records: Seq<StakeRecord>, k: int, f: spec_fn(StakeRecord) -> nat)
    requires
        0 <= k < records.len(),
    ensures
        sum_by(records.remove(k), f) + f(records[k]) == sum_by(records, f),
    decreases records.len(),
{
    if k == records.len() - 1 {
        assert(records.remove(k) =~= records.drop_last());
    } else {
        lemma_sum_remove(records.drop_last(), k, f);
        assert(records.remove(k).drop_last() =~= records.drop_last().remove(k));
        assert(records.remove(k).last() == records.last());
    }
}

/// Two runs of records that agree on `f` place by place have the same sum.
pub proof fn lemma_sum_pointwise(a: Seq<StakeRecord>, b: Seq<StakeRecord>, f: spec_fn(StakeRecord) -> nat)
    requires
        a.len() == b.len(),
        forall|k: int| 0 <= k < a.len() ==> f(#[trigger] a[k]) == f(b[k]),
    ensures
        sum_by(a, f) == sum_by(b, f),
    decreases a.len(),
{
    if a.len() > 0 {
        assert forall|k: int| 0 <= k < a.drop_last().len() implies f(#[trigger] a.drop_last()[k]) == f(
            b.drop_last()[k],
        ) by {
            assert(a.drop_last()[k] == a[k]);
        }
        lemma_sum_pointwise(a.drop_last(), b.drop_last(), f);
        assert(f(a[a.len() - 1]) == f(b[a.len() - 1]));
    }
}

/// No record weighs more than all of them together.
pub proof fn lemma_sum_covers(records: Seq<StakeRecord>, k: int, f: spec_fn(StakeRecord) -> nat)
    requires
        0 <= k < records.len(),
    ensures
        f(records[k]) <= sum_by(records, f),
    decreases records.len(),
{
    if k < records.len() - 1 {
        lemma_sum_covers(records.drop_last(), k, f);
    }
}

/// If every record of one run counts no more under `f` than its counterpart
/// in another counts under `g` and `h` together, the same holds of the sums.
pub proof fn lemma_sum_bounded_by_two(
    a: Seq<StakeRecord>,
    f: spec_fn(StakeRecord) -> nat,
    b: Seq<StakeRecord>,
    g: spec_fn(StakeRecord) -> nat,
    h: spec_fn(StakeRecord) -> nat,
)
    requires
        a.len() == b.len(),
        forall|k: int| 0 <= k < a.len() ==> f(#[trigger] a[k]) <= g(b[k]) + h(b[k]),
    ensures
        sum_by(a, f) <= sum_by(b, g) + sum_by(b, h),
    decreases a.len(),
{
    if a.len() > 0 {
        assert forall|k: int| 0 <= k < a.drop_last().len() implies f(#[trigger] a.drop_last()[k]) <= g(
            b.drop_last()[k],
        ) + h(b.drop_last()[k]) by {
            assert(a.drop_last()[k] == a[k]);
        }
        lemma_sum_bounded_by_two(a.drop_last(), f, b.drop_last(), g, h);
        assert(f(a[a.len() - 1]) <= g(b[a.len() - 1]) + h(b[a.len() - 1]));
    }
}

/// A sum of nothing but zeros is zero.
pub proof fn lemma_zero_sum(records: Seq<StakeRecord>, f: spec_fn(StakeRecord) -> nat)
    requires
        forall|k: int| 0 <= k < records.len() ==> f(#[trigger] records[k]) == 0,
    ensures
        sum_by(records, f) == 0,
    decreases records.len(),
{
    if records.len() > 0 {
        assert forall|k: int| 0 <= k < records.drop_last().len() implies f(#[trigger] records.drop_last()[k])
            == 0 by {
            assert(records.drop_last()[k] == records[k]);
        }
        lemma_zero_sum(records.drop_last(), f);
        assert(f(records[records.len() - 1]) == 0);
    }
}

/// The records at the head of a run sum to no more than all of them.
pub proof fn lemma_sum_prefix(records: Seq<StakeRecord>, n: int, f: spec_fn(StakeRecord) -> nat)
    requires
        0 <= n <= records.len(),
    ensures
        sum_by(records.take(n), f) <= sum_by(records, f),
    decreases records.len(),
{
    if n == records.len() {
        assert(records.take(n) =~= records);
    } else {
        lemma_sum_prefix(records.drop_last(), n, f);
        assert(records.drop_last().take(n) =~= records.take(n));
    }
}

/// The head of a queue up to `due_len` unlocks at `block` or before; the
/// entry behind it, if there is one, unlocks later.
pub proof fn lemma_due_len(queue: Seq<UnstakeQueueEntry>, block: BlockNumber)
    ensures
        due_len(queue, block) <= queue.len(),
        forall|j: int| 0 <= j < due_len(queue, block) ==> (#[trigger] queue[j]).unlock_block <= block,
        due_len(queue, block) < queue.len() ==> queue[due_len(queue, block) as int].unlock_block > block,
    decreases queue.len(),
{
    if queue.len() == 0 || queue[0].unlock_block > block {
    } else {
        let rest = queue.drop_first();
        lemma_due_len(rest, block);
        assert forall|j: int| 0 <= j < due_len(queue, block) implies (#[trigger] queue[j]).unlock_block
            <= block by {
            if j > 0 {
                assert(queue[j] == rest[j - 1]);
            }
        }
        if due_len(queue, block) < queue.len() {
            assert(queue[due_len(queue, block) as int] == rest[due_len(rest, block) as int]);
        }
    }
}

/// The place at which the head of a queue ends is `due_len`.
pub proof fn lemma_due_len_is(queue: Seq<UnstakeQueueEntry>, block: BlockNumber, at: int)
    requires
        0 <= at <= queue.len(),
        forall|j: int| 0 <= j < at ==> (#[trigger] queue[j]).unlock_block <= block,
        at < queue.len() ==> queue[at].unlock_block > block,
    ensures
        due_len(queue, block) == at,
    decreases queue.len(),
{
    if at > 0 {
        let rest = queue.drop_first();
        assert(queue[0].unlock_block <= block);
        assert forall|j: int| 0 <= j < at - 1 implies (#[trigger] rest[j]).unlock_block <= block by {
            assert(rest[j] == queue[j + 1]);
        }
        lemma_due_len_is(rest, block, at - 1);
    }
}

} // verus!
